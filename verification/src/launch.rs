//! What a launch sequence is, stated over stack names, and how the numbered
//! order of the sequencer gives one.
//!
//! In a launch sequence every stack stands behind all the stacks it depends
//! on, and wherever several stacks could go next the one whose name comes
//! first in dictionary order goes first.

use crate::deploy_file::{names_of, DeployFileView};
use crate::graph::{has_stack, links_resolve, names_distinct, same_stacks, sorted_by_name};
use crate::sequencer::{
    acyclic, adjacency, closed_graph, is_cycle_through, is_launch_order, needs, on_cycle, ready,
};
use crate::text::{
    lemma_precedes_asymmetric, lemma_precedes_irreflexive, lemma_precedes_total, precedes,
};
use vstd::prelude::*;

verus! {

/// Every dependency that `stack` declares is among the names in `started`.
pub open spec fn stack_ready(stack: DeployFileView, started: Seq<Seq<char>>) -> bool {
    forall|k: int|
        0 <= k < stack.deploy.depends_on.len() ==> started.contains(
            #[trigger] stack.deploy.depends_on[k],
        )
}

/// `names` is some arrangement of the stacks in which none starts before a
/// stack it depends on: it names every stack once, and the stack at each
/// position declares only dependencies that stand in front of it.
pub open spec fn respects_dependencies(stacks: Seq<DeployFileView>, names: Seq<Seq<char>>) -> bool {
    &&& names.len() == stacks.len()
    &&& names.no_duplicates()
    &&& forall|p: int| 0 <= p < names.len() ==> has_stack(stacks, #[trigger] names[p])
    &&& forall|p: int, i: int|
        0 <= p < names.len() && 0 <= i < stacks.len() && (#[trigger] stacks[i]).deploy.name
            == #[trigger] names[p] ==> stack_ready(stacks[i], names.take(p))
}

/// `names` is the launch sequence of `stacks`: it respects the dependencies,
/// and no stack whose name comes earlier in dictionary order was ready and
/// still waiting at any position.
pub open spec fn is_launch_sequence(stacks: Seq<DeployFileView>, names: Seq<Seq<char>>) -> bool {
    &&& respects_dependencies(stacks, names)
    &&& forall|p: int, i: int|
        0 <= p < names.len() && 0 <= i < stacks.len() && precedes(
            (#[trigger] stacks[i]).deploy.name,
            #[trigger] names[p],
        ) && !names.take(p).contains(stacks[i].deploy.name) ==> !stack_ready(
            stacks[i],
            names.take(p),
        )
}

/// A stack called `name` stands in front of position `p` of the list.
pub open spec fn stands_before(sorted: Seq<DeployFileView>, p: int, name: Seq<char>) -> bool {
    exists|q: int| 0 <= q < p && (#[trigger] sorted[q]).deploy.name == name
}

/// Every stack of the list stands strictly behind each stack that it declares
/// as a dependency.
pub open spec fn dependencies_first(sorted: Seq<DeployFileView>) -> bool {
    forall|p: int, k: int|
        0 <= p < sorted.len() && 0 <= k < sorted[p].deploy.depends_on.len() ==> #[trigger] stands_before(
            sorted,
            p,
            sorted[p].deploy.depends_on[k],
        )
}

/// The stack called `a` declares `b` as a dependency.
pub open spec fn declares(stacks: Seq<DeployFileView>, a: Seq<char>, b: Seq<char>) -> bool {
    exists|i: int|
        0 <= i < stacks.len() && (#[trigger] stacks[i]).deploy.name == a
            && stacks[i].deploy.depends_on.contains(b)
}

/// Each name of `chain` is a stack that declares the next name as a dependency.
pub open spec fn is_dependency_chain(stacks: Seq<DeployFileView>, chain: Seq<Seq<char>>) -> bool {
    forall|k: int| 0 <= k < chain.len() - 1 ==> declares(stacks, #[trigger] chain[k], chain[k + 1])
}

/// `chain` leads from `name` along declared dependencies back to `name`, in
/// at least one step.
pub open spec fn is_cycle_of(
    stacks: Seq<DeployFileView>,
    chain: Seq<Seq<char>>,
    name: Seq<char>,
) -> bool {
    &&& chain.len() >= 2
    &&& chain[0] == name
    &&& chain.last() == name
    &&& is_dependency_chain(stacks, chain)
}

/// The stack called `name` depends on itself, directly or through other
/// stacks.
pub open spec fn depends_on_itself(stacks: Seq<DeployFileView>, name: Seq<char>) -> bool {
    exists|chain: Seq<Seq<char>>| #[trigger] is_cycle_of(stacks, chain, name)
}

/// No stack depends on itself, directly or through other stacks.
pub open spec fn free_of_cycles(stacks: Seq<DeployFileView>) -> bool {
    forall|name: Seq<char>| !depends_on_itself(stacks, name)
}

/// The names of the stacks found at the given positions.
pub open spec fn names_at(stacks: Seq<DeployFileView>, positions: Seq<int>) -> Seq<Seq<char>> {
    Seq::new(positions.len(), |p: int| stacks[positions[p]].deploy.name)
}

/// The position of the stack called `name`.
pub open spec fn position_of(stacks: Seq<DeployFileView>, name: Seq<char>) -> int {
    choose|i: int| 0 <= i < stacks.len() && (#[trigger] stacks[i]).deploy.name == name
}

/// Resolved links refer to stacks of the graph only.
pub(crate) proof fn lemma_links_closed(stacks: Seq<DeployFileView>, links: Seq<Vec<usize>>)
    requires
        links_resolve(stacks, links),
    ensures
        closed_graph(adjacency(links)),
        adjacency(links).len() == stacks.len(),
{
    let g = adjacency(links);
    assert forall|i: int, k: int| 0 <= i < g.len() && 0 <= k < g[i].len() implies 0 <= #[trigger] g[i][k]
        < g.len() by {
        assert(g[i][k] == links[i][k]);
    }
}

/// The numbered launch order of a graph, read as names, is the launch
/// sequence of its stacks.
pub(crate) proof fn lemma_order_gives_sequence(
    stacks: Seq<DeployFileView>,
    links: Seq<Vec<usize>>,
    order: Seq<int>,
)
    requires
        sorted_by_name(stacks),
        links_resolve(stacks, links),
        is_launch_order(adjacency(links), order),
    ensures
        is_launch_sequence(stacks, names_at(stacks, order)),
{
    let g = adjacency(links);
    let names = names_at(stacks, order);
    crate::graph::lemma_sorted_names_distinct(stacks);
    assert forall|p: int, q: int| 0 <= p < names.len() && 0 <= q < names.len() && p != q implies names[p]
        != names[q] by {
        assert(order[p] != order[q]);
        if order[p] < order[q] {
            assert(stacks[order[p]].deploy.name != stacks[order[q]].deploy.name);
        } else {
            assert(stacks[order[q]].deploy.name != stacks[order[p]].deploy.name);
        }
    }
    assert forall|p: int| 0 <= p < names.len() implies has_stack(stacks, #[trigger] names[p]) by {
        assert(stacks[order[p]].deploy.name == names[p]);
    }
    assert forall|p: int, i: int|
        0 <= p < names.len() && 0 <= i < stacks.len() && (#[trigger] stacks[i]).deploy.name
            == #[trigger] names[p] implies stack_ready(stacks[i], names.take(p)) by {
        lemma_same_name_same_position(stacks, i, order[p]);
        assert(ready(g, order.take(p), order[p]));
        assert forall|k: int| 0 <= k < stacks[i].deploy.depends_on.len() implies names.take(
            p,
        ).contains(#[trigger] stacks[i].deploy.depends_on[k]) by {
            assert(links[i].len() == stacks[i].deploy.depends_on.len());
            assert(g[i][k] == links[i][k]);
            assert(order.take(p).contains(g[i][k]));
            let q = choose|q: int| 0 <= q < order.take(p).len() && order.take(p)[q] == g[i][k];
            assert(stacks[links[i][k] as int].deploy.name == stacks[i].deploy.depends_on[k]);
            assert(names.take(p)[q] == stacks[i].deploy.depends_on[k]);
        }
    }
    assert forall|p: int, i: int|
        0 <= p < names.len() && 0 <= i < stacks.len() && precedes(
            (#[trigger] stacks[i]).deploy.name,
            #[trigger] names[p],
        ) && !names.take(p).contains(stacks[i].deploy.name) implies !stack_ready(
        stacks[i],
        names.take(p),
    ) by {
        let at = order[p];
        if i == at {
            lemma_precedes_irreflexive(stacks[i].deploy.name);
        } else if at < i {
            assert(precedes(stacks[at].deploy.name, stacks[i].deploy.name));
            lemma_precedes_asymmetric(stacks[at].deploy.name, stacks[i].deploy.name);
        }
        if order.take(p).contains(i) {
            let q = choose|q: int| 0 <= q < order.take(p).len() && order.take(p)[q] == i;
            assert(names.take(p)[q] == stacks[i].deploy.name);
        }
        assert(!ready(g, order.take(p), i));
        let k = choose|k: int| 0 <= k < g[i].len() && !order.take(p).contains(#[trigger] g[i][k]);
        assert(g[i][k] == links[i][k]);
        assert(links[i].len() == stacks[i].deploy.depends_on.len());
        let wanted = stacks[i].deploy.depends_on[k];
        assert(stacks[links[i][k] as int].deploy.name == wanted);
        if names.take(p).contains(wanted) {
            let q = choose|q: int| 0 <= q < names.take(p).len() && names.take(p)[q] == wanted;
            assert(names[q] == stacks[order[q]].deploy.name);
            lemma_same_name_same_position(stacks, order[q], links[i][k] as int);
            assert(order.take(p)[q] == g[i][k]);
        }
    }
}

/// Among stacks with distinct names, equal names mean the same position.
pub proof fn lemma_same_name_same_position(stacks: Seq<DeployFileView>, i: int, j: int)
    requires
        names_distinct(stacks),
        0 <= i < stacks.len(),
        0 <= j < stacks.len(),
        stacks[i].deploy.name == stacks[j].deploy.name,
    ensures
        i == j,
{
    if i < j {
        assert(stacks[i].deploy.name != stacks[j].deploy.name);
    } else if j < i {
        assert(stacks[j].deploy.name != stacks[i].deploy.name);
    }
}

/// A cycle among the numbered nodes of a graph is a cycle among the names of
/// its stacks.
pub(crate) proof fn lemma_cycle_by_name(stacks: Seq<DeployFileView>, links: Seq<Vec<usize>>, v: int)
    requires
        links_resolve(stacks, links),
        on_cycle(adjacency(links), v),
    ensures
        0 <= v < stacks.len(),
        depends_on_itself(stacks, stacks[v].deploy.name),
{
    let g = adjacency(links);
    let path = choose|path: Seq<int>| is_cycle_through(g, path, v);
    assert(needs(g, path[0], path[1]));
    let chain = names_at(stacks, path);
    assert forall|k: int| 0 <= k < chain.len() - 1 implies declares(
        stacks,
        #[trigger] chain[k],
        chain[k + 1],
    ) by {
        let a = path[k];
        let b = path[k + 1];
        assert(needs(g, a, b));
        let m = choose|m: int| 0 <= m < g[a].len() && g[a][m] == b;
        assert(g[a][m] == links[a][m]);
        assert(links[a].len() == stacks[a].deploy.depends_on.len());
        assert(stacks[links[a][m] as int].deploy.name == stacks[a].deploy.depends_on[m]);
        assert(stacks[a].deploy.depends_on.contains(chain[k + 1]));
    }
    assert(is_cycle_of(stacks, chain, stacks[v].deploy.name));
}

/// A cycle among the names of the stacks of a graph is a cycle among its
/// numbered nodes.
pub(crate) proof fn lemma_cycle_by_number(
    stacks: Seq<DeployFileView>,
    links: Seq<Vec<usize>>,
    name: Seq<char>,
)
    requires
        names_distinct(stacks),
        links_resolve(stacks, links),
        depends_on_itself(stacks, name),
    ensures
        !acyclic(adjacency(links)),
{
    let g = adjacency(links);
    let chain = choose|chain: Seq<Seq<char>>| is_cycle_of(stacks, chain, name);
    let path = Seq::new(chain.len(), |k: int| position_of(stacks, chain[k]));
    assert forall|k: int| 0 <= k < chain.len() implies 0 <= #[trigger] path[k] < stacks.len()
        && stacks[path[k]].deploy.name == chain[k] by {
        let from = if k < chain.len() - 1 { k } else { 0 };
        assert(declares(stacks, chain[from], chain[from + 1]));
    }
    assert forall|k: int| 0 <= k < path.len() - 1 implies needs(g, #[trigger] path[k], path[k + 1]) by {
        assert(declares(stacks, chain[k], chain[k + 1]));
        let i = choose|i: int|
            0 <= i < stacks.len() && (#[trigger] stacks[i]).deploy.name == chain[k]
                && stacks[i].deploy.depends_on.contains(chain[k + 1]);
        lemma_same_name_same_position(stacks, i, path[k]);
        let m = choose|m: int|
            0 <= m < stacks[i].deploy.depends_on.len() && stacks[i].deploy.depends_on[m] == chain[k
                + 1];
        assert(links[i].len() == stacks[i].deploy.depends_on.len());
        assert(stacks[links[i][m] as int].deploy.name == chain[k + 1]);
        lemma_same_name_same_position(stacks, links[i][m] as int, path[k + 1]);
        assert(g[i][m] == path[k + 1]);
    }
    assert(is_cycle_through(g, path, path[0]));
    assert(on_cycle(g, path[0]));
}

/// Rearranging the stacks leaves their launch sequence as it is.
pub proof fn lemma_sequence_ignores_arrangement(
    a: Seq<DeployFileView>,
    b: Seq<DeployFileView>,
    names: Seq<Seq<char>>,
)
    requires
        same_stacks(a, b),
        is_launch_sequence(a, names),
    ensures
        is_launch_sequence(b, names),
{
    crate::graph::lemma_same_stacks_same_names(a, b);
    assert forall|p: int, i: int|
        0 <= p < names.len() && 0 <= i < b.len() && (#[trigger] b[i]).deploy.name
            == #[trigger] names[p] implies stack_ready(b[i], names.take(p)) by {
        assert(b.contains(b[i]));
        let j = choose|j: int| 0 <= j < a.len() && a[j] == b[i];
        assert(stack_ready(a[j], names.take(p)));
    }
    assert forall|p: int, i: int|
        0 <= p < names.len() && 0 <= i < b.len() && precedes(
            (#[trigger] b[i]).deploy.name,
            #[trigger] names[p],
        ) && !names.take(p).contains(b[i].deploy.name) implies !stack_ready(b[i], names.take(p)) by {
        assert(b.contains(b[i]));
        let j = choose|j: int| 0 <= j < a.len() && a[j] == b[i];
        assert(!stack_ready(a[j], names.take(p)));
    }
}

/// Rearranging the stacks neither creates nor removes a dependency cycle.
pub proof fn lemma_cycles_ignore_arrangement(
    a: Seq<DeployFileView>,
    b: Seq<DeployFileView>,
    name: Seq<char>,
)
    requires
        same_stacks(a, b),
        depends_on_itself(a, name),
    ensures
        depends_on_itself(b, name),
{
    let chain = choose|chain: Seq<Seq<char>>| is_cycle_of(a, chain, name);
    assert forall|k: int| 0 <= k < chain.len() - 1 implies declares(
        b,
        #[trigger] chain[k],
        chain[k + 1],
    ) by {
        assert(declares(a, chain[k], chain[k + 1]));
        let i = choose|i: int|
            0 <= i < a.len() && (#[trigger] a[i]).deploy.name == chain[k]
                && a[i].deploy.depends_on.contains(chain[k + 1]);
        assert(a.contains(a[i]));
        let j = choose|j: int| 0 <= j < b.len() && b[j] == a[i];
        assert(b[j].deploy.name == chain[k]);
    }
    assert(is_cycle_of(b, chain, name));
}

/// In an arrangement that respects the dependencies, and so in the launch
/// sequence, every dependency stands strictly in front of each stack that
/// declares it.
pub proof fn lemma_dependency_before_dependent(
    stacks: Seq<DeployFileView>,
    names: Seq<Seq<char>>,
    p: int,
    dependency: Seq<char>,
)
    requires
        respects_dependencies(stacks, names),
        0 <= p < names.len(),
        declares(stacks, names[p], dependency),
    ensures
        exists|q: int| 0 <= q < p && names[q] == dependency,
{
    let i = choose|i: int|
        0 <= i < stacks.len() && (#[trigger] stacks[i]).deploy.name == names[p]
            && stacks[i].deploy.depends_on.contains(dependency);
    assert(stack_ready(stacks[i], names.take(p)));
    let k = choose|k: int|
        0 <= k < stacks[i].deploy.depends_on.len() && stacks[i].deploy.depends_on[k] == dependency;
    assert(names.take(p).contains(stacks[i].deploy.depends_on[k]));
    let q = choose|q: int| 0 <= q < names.take(p).len() && names.take(p)[q] == dependency;
    assert(names[q] == dependency);
}

/// Stacks listed in an order that respects the dependencies, such as their
/// launch sequence, stand behind all the stacks they depend on.
pub proof fn lemma_launch_puts_dependencies_first(
    stacks: Seq<DeployFileView>,
    sorted: Seq<DeployFileView>,
)
    requires
        respects_dependencies(stacks, names_of(sorted)),
        forall|p: int| 0 <= p < sorted.len() ==> stacks.contains(#[trigger] sorted[p]),
    ensures
        dependencies_first(sorted),
{
    let names = names_of(sorted);
    assert forall|p: int, k: int|
        0 <= p < sorted.len() && 0 <= k < sorted[p].deploy.depends_on.len() implies #[trigger] stands_before(
        sorted,
        p,
        sorted[p].deploy.depends_on[k],
    ) by {
        assert(stacks.contains(sorted[p]));
        let i = choose|i: int| 0 <= i < stacks.len() && stacks[i] == sorted[p];
        assert(stacks[i].deploy.name == names[p]);
        assert(stack_ready(stacks[i], names.take(p)));
        assert(names.take(p).contains(stacks[i].deploy.depends_on[k]));
        let q = choose|q: int|
            0 <= q < names.take(p).len() && names.take(p)[q] == sorted[p].deploy.depends_on[k];
        assert(sorted[q].deploy.name == names[q]);
    }
}

/// The launch sequence of a set of stacks is unique: working it out again,
/// from the same stacks in any arrangement, gives the same names in the same
/// order.
pub proof fn lemma_launch_sequence_unique(
    stacks: Seq<DeployFileView>,
    again: Seq<DeployFileView>,
    first: Seq<Seq<char>>,
    second: Seq<Seq<char>>,
)
    requires
        same_stacks(stacks, again),
        is_launch_sequence(stacks, first),
        is_launch_sequence(again, second),
    ensures
        first == second,
{
    lemma_sequence_ignores_arrangement(again, stacks, second);
    lemma_sequences_agree(stacks, first, second, first.len() as int);
    assert(first.take(first.len() as int) == first);
    assert(second.take(second.len() as int) == second);
}

/// Two launch sequences of the same stacks agree on their first `n` names.
proof fn lemma_sequences_agree(
    stacks: Seq<DeployFileView>,
    first: Seq<Seq<char>>,
    second: Seq<Seq<char>>,
    n: int,
)
    requires
        is_launch_sequence(stacks, first),
        is_launch_sequence(stacks, second),
        0 <= n <= stacks.len(),
    ensures
        first.take(n) == second.take(n),
    decreases n,
{
    if n > 0 {
        let p = n - 1;
        lemma_sequences_agree(stacks, first, second, p);
        let a = first[p];
        let b = second[p];
        if a != b {
            lemma_precedes_total(a, b);
            lemma_earlier_name_goes_first(stacks, first, second, p);
            lemma_earlier_name_goes_first(stacks, second, first, p);
        }
        assert(first.take(n) == first.take(p).push(a));
        assert(second.take(n) == second.take(p).push(b));
    }
}

/// Of two launch sequences that agree in front of position `p`, neither
/// continues with a name that comes before the other's: the other would have
/// passed over a stack that was ready.
proof fn lemma_earlier_name_goes_first(
    stacks: Seq<DeployFileView>,
    one: Seq<Seq<char>>,
    other: Seq<Seq<char>>,
    p: int,
)
    requires
        is_launch_sequence(stacks, one),
        is_launch_sequence(stacks, other),
        0 <= p < stacks.len(),
        one.take(p) == other.take(p),
    ensures
        !precedes(one[p], other[p]),
{
    let name = one[p];
    assert(has_stack(stacks, name));
    let i = choose|i: int| 0 <= i < stacks.len() && (#[trigger] stacks[i]).deploy.name == name;
    assert(stack_ready(stacks[i], one.take(p)));
    if other.take(p).contains(name) {
        let q = choose|q: int| 0 <= q < p && one.take(p)[q] == name;
        assert(one[q] == one[p]);
    }
    if precedes(one[p], other[p]) {
        assert(!stack_ready(stacks[i], other.take(p)));
    }
}

/// Of all arrangements that respect the dependencies, the launch sequence is
/// the one that comes first: where another arrangement first departs from it,
/// the launch sequence has the name that is earlier in dictionary order.
pub proof fn lemma_launch_sequence_comes_first(
    stacks: Seq<DeployFileView>,
    launch: Seq<Seq<char>>,
    other: Seq<Seq<char>>,
    p: int,
)
    requires
        is_launch_sequence(stacks, launch),
        respects_dependencies(stacks, other),
        0 <= p < stacks.len(),
        launch.take(p) == other.take(p),
        launch[p] != other[p],
    ensures
        precedes(launch[p], other[p]),
{
    let name = other[p];
    assert(has_stack(stacks, name));
    let i = choose|i: int| 0 <= i < stacks.len() && (#[trigger] stacks[i]).deploy.name == name;
    assert(stack_ready(stacks[i], other.take(p)));
    if launch.take(p).contains(name) {
        let q = choose|q: int| 0 <= q < p && other.take(p)[q] == name;
        assert(other[q] == other[p]);
    }
    lemma_precedes_total(launch[p], name);
}

/// Stacks that can be arranged so that the dependencies are respected, as
/// they are in a launch sequence, are free of dependency cycles.
pub proof fn lemma_launch_sequence_excludes_cycles(
    stacks: Seq<DeployFileView>,
    names: Seq<Seq<char>>,
)
    requires
        respects_dependencies(stacks, names),
    ensures
        free_of_cycles(stacks),
{
    assert forall|name: Seq<char>| !depends_on_itself(stacks, name) by {
        if depends_on_itself(stacks, name) {
            let chain = choose|chain: Seq<Seq<char>>| is_cycle_of(stacks, chain, name);
            assert(declares(stacks, chain[0], chain[1]));
            lemma_declaring_stack_is_listed(stacks, names, name);
            let p = choose|p: int| 0 <= p < names.len() && names[p] == name;
            lemma_chain_moves_forward(stacks, names, chain, p);
        }
    }
}

/// An arrangement that respects the dependencies names every stack.
proof fn lemma_declaring_stack_is_listed(
    stacks: Seq<DeployFileView>,
    names: Seq<Seq<char>>,
    name: Seq<char>,
)
    requires
        respects_dependencies(stacks, names),
        has_stack(stacks, name),
    ensures
        names.contains(name),
{
    if !names.contains(name) {
        // Every listed name is a stack other than `name`, so the distinct
        // listed names fit into the stacks with one to spare.
        let at = choose|i: int| 0 <= i < stacks.len() && (#[trigger] stacks[i]).deploy.name == name;
        let spots = Seq::new(names.len(), |p: int| position_of(stacks, names[p]));
        assert forall|p: int| 0 <= p < spots.len() implies 0 <= #[trigger] spots[p] < stacks.len()
            && stacks[spots[p]].deploy.name == names[p] by {
            assert(has_stack(stacks, names[p]));
        }
        assert forall|p: int, q: int|
            0 <= p < spots.len() && 0 <= q < spots.len() && p != q implies spots[p] != spots[q] by {
            assert(names[p] != names[q]);
        }
        crate::sequencer::lemma_full_list_covers(spots, stacks.len() as int);
        assert(spots.contains(at));
        let p = choose|p: int| 0 <= p < spots.len() && spots[p] == at;
        assert(names[p] == name);
    }
}

/// Following a dependency chain from position `p` of an arrangement that
/// respects the dependencies only moves towards the front.
proof fn lemma_chain_moves_forward(
    stacks: Seq<DeployFileView>,
    names: Seq<Seq<char>>,
    chain: Seq<Seq<char>>,
    p: int,
)
    requires
        respects_dependencies(stacks, names),
        is_dependency_chain(stacks, chain),
        chain.len() >= 1,
        0 <= p < names.len(),
        names[p] == chain[0],
    ensures
        exists|q: int| 0 <= q <= p && names[q] == chain.last() && (chain.len() >= 2 ==> q < p),
    decreases chain.len(),
{
    if chain.len() >= 2 {
        assert(declares(stacks, chain[0], chain[1]));
        lemma_dependency_before_dependent(stacks, names, p, chain[1]);
        let q = choose|q: int| 0 <= q < p && names[q] == chain[1];
        let rest = chain.subrange(1, chain.len() as int);
        assert forall|k: int| 0 <= k < rest.len() - 1 implies declares(
            stacks,
            #[trigger] rest[k],
            rest[k + 1],
        ) by {
            assert(declares(stacks, chain[k + 1], chain[k + 2]));
        }
        lemma_chain_moves_forward(stacks, names, rest, q);
        let r = choose|r: int|
            0 <= r <= q && names[r] == rest.last() && (rest.len() >= 2 ==> r < q);
        assert(names[r] == chain.last());
    } else {
        assert(names[p] == chain.last());
    }
}

/// The teardown order is the launch order element for element from the end:
/// whatever reads backwards as the launch sequence is its exact mirror image.
pub proof fn lemma_teardown_mirrors_launch(
    stacks: Seq<DeployFileView>,
    launch: Seq<Seq<char>>,
    teardown: Seq<Seq<char>>,
)
    requires
        is_launch_sequence(stacks, launch),
        is_launch_sequence(stacks, teardown.reverse()),
    ensures
        teardown == launch.reverse(),
        forall|p: int| 0 <= p < teardown.len() ==> teardown[p] == launch[launch.len() - 1 - p],
{
    lemma_sequences_agree(stacks, launch, teardown.reverse(), stacks.len() as int);
    assert(launch.take(launch.len() as int) == launch);
    assert(teardown.reverse().take(launch.len() as int) == teardown.reverse());
    assert(teardown.reverse().reverse() == teardown);
}

} // verus!
