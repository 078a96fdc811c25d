//! The dependency graph over the stacks that one host runs.
//!
//! Building the graph checks that no two stacks share a name and that every
//! declared dependency is itself one of the stacks. The graph keeps the stacks
//! in ascending order of their names.

use crate::deploy_file::{manifests_of, names_of, texts_of, DeployFile, DeployFileView};
use crate::launch::{
    dependencies_first, depends_on_itself, free_of_cycles, is_launch_sequence,
    lemma_cycle_by_name, lemma_cycle_by_number, lemma_launch_puts_dependencies_first,
    lemma_links_closed, lemma_order_gives_sequence, names_at,
};
use crate::sequencer::{
    adjacency, is_launch_order, launch_order, lemma_full_list_covers, numbers_of,
};
use crate::text::{
    compare_names, lemma_precedes_asymmetric, lemma_precedes_irreflexive,
    lemma_precedes_transitive, precedes, NameOrder,
};
use std::path::PathBuf;
use vstd::prelude::*;

verus! {

/// Some stack of the list is called `name`.
pub open spec fn has_stack(stacks: Seq<DeployFileView>, name: Seq<char>) -> bool {
    exists|i: int| 0 <= i < stacks.len() && (#[trigger] stacks[i]).deploy.name == name
}

/// No two stacks of the list share a name.
pub open spec fn names_distinct(stacks: Seq<DeployFileView>) -> bool {
    forall|i: int, j: int|
        0 <= i < j < stacks.len() ==> (#[trigger] stacks[i]).deploy.name != (
        #[trigger] stacks[j]).deploy.name
}

/// Every dependency that `stack` declares is the name of a stack of the list.
pub open spec fn finds_dependencies(stacks: Seq<DeployFileView>, stack: DeployFileView) -> bool {
    forall|k: int|
        0 <= k < stack.deploy.depends_on.len() ==> has_stack(
            stacks,
            #[trigger] stack.deploy.depends_on[k],
        )
}

/// Every dependency declared by any stack of the list is a stack of the list.
pub open spec fn dependencies_present(stacks: Seq<DeployFileView>) -> bool {
    forall|i: int| 0 <= i < stacks.len() ==> finds_dependencies(stacks, #[trigger] stacks[i])
}

/// The stacks stand in strictly ascending dictionary order of their names.
pub open spec fn sorted_by_name(stacks: Seq<DeployFileView>) -> bool {
    forall|i: int, j: int|
        0 <= i < j < stacks.len() ==> precedes(
            (#[trigger] stacks[i]).deploy.name,
            (#[trigger] stacks[j]).deploy.name,
        )
}

/// The two lists are equally long and every stack of one occurs in the
/// other. For lists in which no stack is repeated this says that one is a
/// rearrangement of the other.
pub open spec fn same_stacks(a: Seq<DeployFileView>, b: Seq<DeployFileView>) -> bool {
    &&& a.len() == b.len()
    &&& forall|d: DeployFileView| a.contains(d) <==> b.contains(d)
}

/// The stacks at positions `a < b` are the first pair to share a name: in
/// front of `b` all names differ.
pub open spec fn first_duplicate_at(stacks: Seq<DeployFileView>, a: int, b: int) -> bool {
    &&& 0 <= a < b < stacks.len()
    &&& stacks[a].deploy.name == stacks[b].deploy.name
    &&& names_distinct(stacks.take(b))
}

/// `stack` declares, as its `k`-th dependency, a name that no stack carries,
/// and this is the first such gap: the dependencies it declares in front of
/// `k` exist, and so do all dependencies of the stacks whose names come before
/// its own.
pub open spec fn first_gap_at(stacks: Seq<DeployFileView>, stack: DeployFileView, k: int) -> bool {
    &&& stacks.contains(stack)
    &&& 0 <= k < stack.deploy.depends_on.len()
    &&& !has_stack(stacks, stack.deploy.depends_on[k])
    &&& forall|j: int| 0 <= j < k ==> has_stack(stacks, #[trigger] stack.deploy.depends_on[j])
    &&& forall|i: int|
        0 <= i < stacks.len() && precedes((#[trigger] stacks[i]).deploy.name, stack.deploy.name)
            ==> finds_dependencies(stacks, stacks[i])
}

/// Why a set of descriptors does not form a dependency graph.
#[derive(Debug)]
pub enum BuildError {
    /// Two descriptors carry the same stack name.
    DuplicateName {
        /// the name that both claim
        name: String,
        /// manifest of the descriptor that came first
        first: PathBuf,
        /// manifest of the descriptor that repeated the name
        second: PathBuf,
    },
    /// A stack depends on a name that no descriptor carries.
    MissingDependency {
        /// the stack that declares the dependency
        dependent: String,
        /// the name that could not be found
        dependency: String,
        /// whether the descriptors came from an explicit list of files
        /// rather than from a scan of a directory tree
        files_specified: bool,
    },
}

impl BuildError {
    /// The error reports the first pair of `stacks` that share a name, or else
    /// the first dependency of `stacks` that cannot be found.
    pub open spec fn describes(self, stacks: Seq<DeployFileView>, files_specified: bool) -> bool {
        match self {
            BuildError::DuplicateName { name, first, second } => exists|a: int, b: int|
                {
                    &&& #[trigger] first_duplicate_at(stacks, a, b)
                    &&& name@ == stacks[b].deploy.name
                    &&& first == stacks[a].path
                    &&& second == stacks[b].path
                },
            BuildError::MissingDependency { dependent, dependency, files_specified: flag } => {
                &&& names_distinct(stacks)
                &&& flag == files_specified
                &&& exists|stack: DeployFileView, k: int|
                    {
                        &&& #[trigger] first_gap_at(stacks, stack, k)
                        &&& dependent@ == stack.deploy.name
                        &&& dependency@ == stack.deploy.depends_on[k]
                    }
            },
        }
    }
}

impl BuildError {
    /// The wording of the error. A missing dependency is worded differently
    /// for an explicit list of files than for a scan, so that the reader
    /// knows where the dependency was looked for.
    pub open spec fn message_text(self) -> Seq<char> {
        match self {
            BuildError::DuplicateName { name, first, second } => {
                "multiple stacks have the same name "@ + name@
            },
            BuildError::MissingDependency { dependent, dependency, files_specified } => {
                dependent@ + " depends on "@ + dependency@ + ", but "@ + dependency@ + if files_specified {
                    " is not present in any of the specified stack deploy files"@
                } else {
                    " is not present in any stack deploy file"@
                }
            },
        }
    }

    /// The error in words, for the operator.
    pub fn message(&self) -> (text: String)
        ensures
            text@ == self.message_text(),
    {
        match self {
            BuildError::DuplicateName { name, first, second } => {
                "multiple stacks have the same name ".to_owned().concat(name.as_str())
            },
            BuildError::MissingDependency { dependent, dependency, files_specified } => {
                let start = dependent.clone().concat(" depends on ").concat(
                    dependency.as_str(),
                ).concat(", but ").concat(dependency.as_str());
                if *files_specified {
                    start.concat(" is not present in any of the specified stack deploy files")
                } else {
                    start.concat(" is not present in any stack deploy file")
                }
            },
        }
    }
}

/// The stacks of one host with their dependencies resolved.
pub struct DependencyGraph {
    /// the stacks in ascending order of their names
    stacks: Vec<DeployFile>,
    /// for each stack, the positions in `stacks` of the stacks it depends on,
    /// in the order in which its manifest declares them
    links: Vec<Vec<usize>>,
}

impl View for DependencyGraph {
    type V = Seq<DeployFileView>;

    /// The stacks of the graph, in ascending order of their names.
    closed spec fn view(&self) -> Seq<DeployFileView> {
        manifests_of(self.stacks@)
    }
}

/// `links` records, for every dependency that a stack declares, the position
/// of the stack with that name.
pub open spec fn links_resolve(stacks: Seq<DeployFileView>, links: Seq<Vec<usize>>) -> bool {
    &&& links.len() == stacks.len()
    &&& forall|i: int|
        0 <= i < stacks.len() ==> (#[trigger] links[i]).len() == stacks[i].deploy.depends_on.len()
    &&& forall|i: int, k: int|
        0 <= i < stacks.len() && 0 <= k < links[i].len() ==> {
            &&& (#[trigger] links[i][k]) < stacks.len()
            &&& stacks[links[i][k] as int].deploy.name == stacks[i].deploy.depends_on[k]
        }
}

/// In a list sorted by name all names differ.
pub proof fn lemma_sorted_names_distinct(stacks: Seq<DeployFileView>)
    requires
        sorted_by_name(stacks),
    ensures
        names_distinct(stacks),
{
    assert forall|i: int, j: int| 0 <= i < j < stacks.len() implies (#[trigger] stacks[i]).deploy.name
        != (#[trigger] stacks[j]).deploy.name by {
        lemma_precedes_irreflexive(stacks[i].deploy.name);
    }
}

/// Rearranging a list of stacks changes neither which names it holds nor
/// whether each declared dependency can be found.
pub proof fn lemma_same_stacks_same_names(a: Seq<DeployFileView>, b: Seq<DeployFileView>)
    requires
        same_stacks(a, b),
    ensures
        forall|name: Seq<char>| has_stack(a, name) <==> has_stack(b, name),
        dependencies_present(a) <==> dependencies_present(b),
{
    assert forall|name: Seq<char>| has_stack(a, name) <==> has_stack(b, name) by {
        if has_stack(a, name) {
            lemma_has_stack_carries_over(a, b, name);
        }
        if has_stack(b, name) {
            lemma_has_stack_carries_over(b, a, name);
        }
    }
    if dependencies_present(a) {
        lemma_dependencies_carry_over(a, b);
    }
    if dependencies_present(b) {
        lemma_dependencies_carry_over(b, a);
    }
}

proof fn lemma_has_stack_carries_over(a: Seq<DeployFileView>, b: Seq<DeployFileView>, name: Seq<char>)
    requires
        forall|d: DeployFileView| a.contains(d) ==> b.contains(d),
        has_stack(a, name),
    ensures
        has_stack(b, name),
{
    let i = choose|i: int| 0 <= i < a.len() && (#[trigger] a[i]).deploy.name == name;
    assert(a.contains(a[i]));
    let j = choose|j: int| 0 <= j < b.len() && b[j] == a[i];
    assert(b[j].deploy.name == name);
}

proof fn lemma_dependencies_carry_over(a: Seq<DeployFileView>, b: Seq<DeployFileView>)
    requires
        same_stacks(a, b),
        dependencies_present(a),
    ensures
        dependencies_present(b),
{
    assert forall|j: int| 0 <= j < b.len() implies finds_dependencies(b, #[trigger] b[j]) by {
        assert(b.contains(b[j]));
        let i = choose|i: int| 0 <= i < a.len() && a[i] == b[j];
        assert(finds_dependencies(a, a[i]));
        assert forall|k: int| 0 <= k < b[j].deploy.depends_on.len() implies has_stack(
            b,
            #[trigger] b[j].deploy.depends_on[k],
        ) by {
            lemma_has_stack_carries_over(a, b, b[j].deploy.depends_on[k]);
        }
    }
}

impl DependencyGraph {
    /// What every graph satisfies: the stacks are sorted by name, and each
    /// declared dependency is resolved to the stack that carries its name.
    #[verifier::type_invariant]
    closed spec fn well_formed(&self) -> bool {
        &&& sorted_by_name(manifests_of(self.stacks@))
        &&& links_resolve(manifests_of(self.stacks@), self.links@)
    }

    /// Number of stacks in the graph.
    pub fn len(&self) -> (n: usize)
        ensures
            n == self@.len(),
    {
        self.stacks.len()
    }

    /// The stack at position `i` when the stacks are listed by ascending name.
    pub fn stack(&self, i: usize) -> (found: Option<&DeployFile>)
        ensures
            match found {
                Some(file) => i < self@.len() && file@ == self@[i as int],
                None => i >= self@.len(),
            },
    {
        if i < self.stacks.len() {
            Some(&self.stacks[i])
        } else {
            None
        }
    }

    /// Position at which a stack called `name` stands or would have to be
    /// inserted to keep `stacks` sorted, and whether it stands there.
    fn locate(stacks: &Vec<DeployFile>, name: &str) -> (spot: (usize, bool))
        requires
            sorted_by_name(manifests_of(stacks@)),
        ensures
            spot.0 <= stacks.len(),
            forall|i: int| 0 <= i < spot.0 ==> precedes(#[trigger] stacks[i].deploy.name@, name@),
            spot.1 ==> spot.0 < stacks.len() && stacks[spot.0 as int].deploy.name@ == name@,
            !spot.1 ==> forall|i: int|
                spot.0 <= i < stacks.len() ==> precedes(name@, #[trigger] stacks[i].deploy.name@),
            spot.1 <==> has_stack(manifests_of(stacks@), name@),
    {
        let ghost views = manifests_of(stacks@);
        let mut at: usize = 0;
        while at < stacks.len()
            invariant
                views == manifests_of(stacks@),
                sorted_by_name(views),
                at <= stacks.len(),
                forall|i: int| 0 <= i < at ==> precedes(#[trigger] stacks[i].deploy.name@, name@),
            decreases stacks.len() - at,
        {
            match compare_names(stacks[at].deploy.name.as_str(), name) {
                NameOrder::Before => {
                    at += 1;
                },
                NameOrder::Same => {
                    assert(views[at as int].deploy.name == name@);
                    return (at, true);
                },
                NameOrder::After => {
                    proof {
                        assert forall|i: int| at <= i < stacks.len() implies precedes(
                            name@,
                            #[trigger] stacks[i].deploy.name@,
                        ) by {
                            if i > at {
                                assert(precedes(views[at as int].deploy.name, views[i].deploy.name));
                                lemma_precedes_transitive(
                                    name@,
                                    views[at as int].deploy.name,
                                    views[i].deploy.name,
                                );
                            }
                        }
                        Self::lemma_absent(views, name@, at as int);
                    }
                    return (at, false);
                },
            }
        }
        proof {
            Self::lemma_absent(views, name@, at as int);
        }
        (at, false)
    }

    /// A name that falls strictly between the stacks in front of `at` and
    /// those from `at` on belongs to none of them.
    proof fn lemma_absent(stacks: Seq<DeployFileView>, name: Seq<char>, at: int)
        requires
            0 <= at <= stacks.len(),
            forall|i: int| 0 <= i < at ==> precedes((#[trigger] stacks[i]).deploy.name, name),
            forall|i: int|
                at <= i < stacks.len() ==> precedes(name, (#[trigger] stacks[i]).deploy.name),
        ensures
            !has_stack(stacks, name),
    {
        lemma_precedes_irreflexive(name);
    }
}

impl DependencyGraph {
    /// Builds the graph over `descriptors`, the stacks that passed the host
    /// filter.
    ///
    /// Descriptors are taken in the order given. The first one whose name an
    /// earlier descriptor already carries makes the build fail and is reported
    /// with both manifests. Once all names are known to differ, the stacks are
    /// examined in ascending order of their names, each one's dependencies in
    /// the order declared, and the first dependency that none of the
    /// descriptors carries makes the build fail. `files_specified` is only
    /// handed on to that error.
    pub fn build(descriptors: Vec<DeployFile>, files_specified: bool) -> (outcome: Result<
        DependencyGraph,
        BuildError,
    >)
        ensures
            match outcome {
                Ok(graph) => {
                    &&& same_stacks(graph@, manifests_of(descriptors@))
                    &&& sorted_by_name(graph@)
                    &&& dependencies_present(graph@)
                },
                Err(error) => error.describes(manifests_of(descriptors@), files_specified),
            },
            outcome is Ok <==> names_distinct(manifests_of(descriptors@)) && dependencies_present(
                manifests_of(descriptors@),
            ),
            outcome matches Err(error) ==> (error is DuplicateName <==> !names_distinct(
                manifests_of(descriptors@),
            )),
    {
        let ghost given = manifests_of(descriptors@);
        let stacks = match Self::arrange(descriptors) {
            Ok(stacks) => stacks,
            Err(error) => {
                proof {
                    let (a, b) = choose|a: int, b: int|
                        {
                            &&& #[trigger] first_duplicate_at(given, a, b)
                            &&& error->DuplicateName_name@ == given[b].deploy.name
                            &&& error->DuplicateName_first == given[a].path
                            &&& error->DuplicateName_second == given[b].path
                        };
                    assert(given[a].deploy.name == given[b].deploy.name);
                }
                return Err(error);
            },
        };
        let ghost sorted = manifests_of(stacks@);
        proof {
            lemma_same_stacks_same_names(sorted, given);
            lemma_sorted_names_distinct(sorted);
        }
        match Self::resolve_links(&stacks, files_specified) {
            Ok(links) => {
                proof {
                    Self::lemma_links_find_dependencies(sorted, links@);
                }
                Ok(DependencyGraph { stacks, links })
            },
            Err(error) => {
                proof {
                    let (stack, k) = choose|stack: DeployFileView, k: int|
                        {
                            &&& #[trigger] first_gap_at(sorted, stack, k)
                            &&& error->MissingDependency_dependent@ == stack.deploy.name
                            &&& error->MissingDependency_dependency@ == stack.deploy.depends_on[k]
                        };
                    Self::lemma_gap_carries_over(sorted, given, stack, k);
                    assert(first_gap_at(given, stack, k));
                    let at = choose|at: int| 0 <= at < given.len() && given[at] == stack;
                    assert(!finds_dependencies(given, given[at]));
                }
                Err(error)
            },
        }
    }

    /// Sorts the descriptors by name, or reports the first repeated name.
    fn arrange(descriptors: Vec<DeployFile>) -> (outcome: Result<Vec<DeployFile>, BuildError>)
        ensures
            match outcome {
                Ok(stacks) => {
                    &&& same_stacks(manifests_of(stacks@), manifests_of(descriptors@))
                    &&& sorted_by_name(manifests_of(stacks@))
                    &&& names_distinct(manifests_of(descriptors@))
                },
                Err(error) => {
                    &&& error is DuplicateName
                    &&& error.describes(manifests_of(descriptors@), false)
                },
            },
    {
        let ghost given = manifests_of(descriptors@);
        let mut stacks: Vec<DeployFile> = Vec::new();
        for descriptor in it: descriptors
            invariant
                it.seq() == descriptors@,
                given == manifests_of(descriptors@),
                same_stacks(manifests_of(stacks@), given.take(it.index() as int)),
                sorted_by_name(manifests_of(stacks@)),
                names_distinct(given.take(it.index() as int)),
        {
            let ghost done = it.index() as int;
            let ghost before = manifests_of(stacks@);
            let ghost added = descriptor@;
            assert(given[done] == added);
            let (at, taken) = Self::locate(&stacks, descriptor.deploy.name.as_str());
            if taken {
                let error = BuildError::DuplicateName {
                    name: descriptor.deploy.name.clone(),
                    first: stacks[at].path.clone(),
                    second: descriptor.path,
                };
                proof {
                    assert(before.contains(before[at as int]));
                    let a = choose|a: int|
                        0 <= a < given.take(done).len() && given.take(done)[a] == before[at as int];
                    assert(first_duplicate_at(given, a, done));
                }
                return Err(error);
            }
            stacks.insert(at, descriptor);
            proof {
                let after = manifests_of(stacks@);
                assert(after == before.insert(at as int, added));
                Self::lemma_insert_keeps_sorted(before, at as int, added);
                Self::lemma_insert_adds_one(before, at as int, added, given, done);
            }
        }
        proof {
            assert(given.take(given.len() as int) == given);
        }
        Ok(stacks)
    }

    /// Putting a stack between those whose names come before its own and
    /// those whose names come after keeps the list sorted.
    proof fn lemma_insert_keeps_sorted(stacks: Seq<DeployFileView>, at: int, added: DeployFileView)
        requires
            sorted_by_name(stacks),
            0 <= at <= stacks.len(),
            forall|i: int|
                0 <= i < at ==> precedes((#[trigger] stacks[i]).deploy.name, added.deploy.name),
            forall|i: int|
                at <= i < stacks.len() ==> precedes(
                    added.deploy.name,
                    (#[trigger] stacks[i]).deploy.name,
                ),
        ensures
            sorted_by_name(stacks.insert(at, added)),
    {
        let grown = stacks.insert(at, added);
        assert forall|i: int, j: int| 0 <= i < j < grown.len() implies precedes(
            (#[trigger] grown[i]).deploy.name,
            (#[trigger] grown[j]).deploy.name,
        ) by {
            if i < at && j > at {
                assert(grown[i] == stacks[i]);
                assert(grown[j] == stacks[j - 1]);
            } else if i < at && j < at {
                assert(grown[i] == stacks[i]);
                assert(grown[j] == stacks[j]);
            } else if i > at {
                assert(grown[i] == stacks[i - 1]);
                assert(grown[j] == stacks[j - 1]);
            } else if i == at {
                assert(grown[j] == stacks[j - 1]);
            } else {
                assert(grown[i] == stacks[i]);
            }
        }
    }

    /// Inserting the next given descriptor into the sorted list keeps the list
    /// in step with the descriptors taken so far, and their names distinct.
    proof fn lemma_insert_adds_one(
        stacks: Seq<DeployFileView>,
        at: int,
        added: DeployFileView,
        given: Seq<DeployFileView>,
        done: int,
    )
        requires
            0 <= at <= stacks.len(),
            0 <= done < given.len(),
            given[done] == added,
            same_stacks(stacks, given.take(done)),
            names_distinct(given.take(done)),
            !has_stack(stacks, added.deploy.name),
        ensures
            same_stacks(stacks.insert(at, added), given.take(done + 1)),
            names_distinct(given.take(done + 1)),
    {
        let grown = stacks.insert(at, added);
        let taken = given.take(done);
        let next = given.take(done + 1);
        assert(next == taken.push(added));
        assert forall|d: DeployFileView| grown.contains(d) <==> next.contains(d) by {
            if grown.contains(d) {
                let i = choose|i: int| 0 <= i < grown.len() && grown[i] == d;
                if i < at {
                    assert(stacks[i] == d);
                    assert(stacks.contains(d));
                } else if i > at {
                    assert(stacks[i - 1] == d);
                    assert(stacks.contains(d));
                }
                if d != added {
                    let j = choose|j: int| 0 <= j < taken.len() && taken[j] == d;
                    assert(next[j] == d);
                } else {
                    assert(next[done] == d);
                }
            }
            if next.contains(d) {
                let j = choose|j: int| 0 <= j < next.len() && next[j] == d;
                if j < done {
                    assert(taken[j] == d);
                    assert(taken.contains(d));
                    let i = choose|i: int| 0 <= i < stacks.len() && stacks[i] == d;
                    if i < at {
                        assert(grown[i] == d);
                    } else {
                        assert(grown[i + 1] == d);
                    }
                } else {
                    assert(grown[at] == d);
                }
            }
        }
        assert forall|i: int, j: int| 0 <= i < j < next.len() implies (#[trigger] next[i]).deploy.name
            != (#[trigger] next[j]).deploy.name by {
            if j == done {
                assert(taken[i] == next[i]);
                assert(taken.contains(taken[i]));
                if next[i].deploy.name == added.deploy.name {
                    let m = choose|m: int| 0 <= m < stacks.len() && stacks[m] == taken[i];
                    assert(stacks[m].deploy.name == added.deploy.name);
                }
            } else {
                assert(taken[i] == next[i]);
                assert(taken[j] == next[j]);
            }
        }
    }

    /// Looks up, for every stack, the positions of the stacks it depends on,
    /// or reports the first dependency that is not among the stacks.
    fn resolve_links(stacks: &Vec<DeployFile>, files_specified: bool) -> (outcome: Result<
        Vec<Vec<usize>>,
        BuildError,
    >)
        requires
            sorted_by_name(manifests_of(stacks@)),
        ensures
            match outcome {
                Ok(links) => links_resolve(manifests_of(stacks@), links@),
                Err(error) => {
                    &&& error is MissingDependency
                    &&& error.describes(manifests_of(stacks@), files_specified)
                },
            },
    {
        let ghost views = manifests_of(stacks@);
        proof {
            lemma_sorted_names_distinct(views);
        }
        let mut links: Vec<Vec<usize>> = Vec::new();
        let mut i: usize = 0;
        while i < stacks.len()
            invariant
                views == manifests_of(stacks@),
                sorted_by_name(views),
                names_distinct(views),
                i <= stacks.len(),
                links.len() == i,
                forall|j: int|
                    0 <= j < i ==> (#[trigger] links[j]).len() == views[j].deploy.depends_on.len(),
                forall|j: int, k: int|
                    0 <= j < i && 0 <= k < links[j].len() ==> (#[trigger] links[j][k]) < stacks.len()
                        && views[links[j][k] as int].deploy.name == views[j].deploy.depends_on[k],
                forall|j: int| 0 <= j < i ==> finds_dependencies(views, #[trigger] views[j]),
            decreases stacks.len() - i,
        {
            let wanted = &stacks[i].deploy.depends_on;
            let mut found: Vec<usize> = Vec::new();
            let mut k: usize = 0;
            while k < wanted.len()
                invariant
                    views == manifests_of(stacks@),
                    sorted_by_name(views),
                    names_distinct(views),
                    i < stacks.len(),
                    wanted == &stacks[i as int].deploy.depends_on,
                    k <= wanted.len(),
                    found.len() == k,
                    forall|j: int|
                        0 <= j < k ==> (#[trigger] found[j]) < stacks.len()
                            && views[found[j] as int].deploy.name == wanted[j]@,
                    forall|j: int|
                        0 <= j < i ==> finds_dependencies(views, #[trigger] views[j]),
                decreases wanted.len() - k,
            {
                let (at, present) = Self::locate(stacks, wanted[k].as_str());
                if !present {
                    let error = BuildError::MissingDependency {
                        dependent: stacks[i].deploy.name.clone(),
                        dependency: wanted[k].clone(),
                        files_specified,
                    };
                    proof {
                        let stack = views[i as int];
                        assert(stack.deploy.depends_on[k as int] == wanted[k as int]@);
                        assert forall|j: int| 0 <= j < k implies has_stack(
                            views,
                            #[trigger] stack.deploy.depends_on[j],
                        ) by {
                            assert(views[found[j] as int].deploy.name == wanted[j]@);
                        }
                        assert forall|j: int|
                            0 <= j < views.len() && precedes(
                                (#[trigger] views[j]).deploy.name,
                                stack.deploy.name,
                            ) implies finds_dependencies(views, views[j]) by {
                            if j > i {
                                assert(precedes(views[i as int].deploy.name, views[j].deploy.name));
                                lemma_precedes_asymmetric(
                                    views[i as int].deploy.name,
                                    views[j].deploy.name,
                                );
                            } else if j == i {
                                lemma_precedes_irreflexive(stack.deploy.name);
                            }
                        }
                        assert(first_gap_at(views, stack, k as int));
                    }
                    return Err(error);
                }
                found.push(at);
                k += 1;
            }
            proof {
                assert forall|j: int| 0 <= j < views[i as int].deploy.depends_on.len() implies has_stack(
                    views,
                    #[trigger] views[i as int].deploy.depends_on[j],
                ) by {
                    assert(views[found[j] as int].deploy.name == wanted[j]@);
                }
            }
            links.push(found);
            i += 1;
        }
        Ok(links)
    }

    /// When every declared dependency is resolved to a position, every
    /// declared dependency is the name of a stack.
    proof fn lemma_links_find_dependencies(stacks: Seq<DeployFileView>, links: Seq<Vec<usize>>)
        requires
            links_resolve(stacks, links),
        ensures
            dependencies_present(stacks),
    {
        assert forall|i: int| 0 <= i < stacks.len() implies finds_dependencies(
            stacks,
            #[trigger] stacks[i],
        ) by {
            assert forall|k: int| 0 <= k < stacks[i].deploy.depends_on.len() implies has_stack(
                stacks,
                #[trigger] stacks[i].deploy.depends_on[k],
            ) by {
                assert(links[i].len() == stacks[i].deploy.depends_on.len());
                assert(stacks[links[i][k] as int].deploy.name == stacks[i].deploy.depends_on[k]);
            }
        }
    }

    /// The first gap of a list of stacks is the first gap of every
    /// rearrangement of it.
    proof fn lemma_gap_carries_over(
        a: Seq<DeployFileView>,
        b: Seq<DeployFileView>,
        stack: DeployFileView,
        k: int,
    )
        requires
            same_stacks(a, b),
            first_gap_at(a, stack, k),
        ensures
            first_gap_at(b, stack, k),
    {
        lemma_same_stacks_same_names(a, b);
        assert forall|i: int|
            0 <= i < b.len() && precedes(
                (#[trigger] b[i]).deploy.name,
                stack.deploy.name,
            ) implies finds_dependencies(b, b[i]) by {
            assert(b.contains(b[i]));
            let j = choose|j: int| 0 <= j < a.len() && a[j] == b[i];
            assert(finds_dependencies(a, a[j]));
        }
    }
}

/// A dependency cycle: the named stack depends on itself, directly or through
/// other stacks.
#[derive(Debug)]
pub struct CycleError {
    /// a stack that lies on the cycle
    pub name: String,
}

impl CycleError {
    /// The wording of the error.
    pub open spec fn message_text(self) -> Seq<char> {
        "Dependency cycle detected for "@ + self.name@
    }

    /// The error in words, for the operator.
    pub fn message(&self) -> (text: String)
        ensures
            text@ == self.message_text(),
    {
        "Dependency cycle detected for ".to_owned().concat(self.name.as_str())
    }
}

/// The elements of `items` from the last to the first.
pub fn reversed<T>(items: Vec<T>) -> (mirrored: Vec<T>)
    ensures
        mirrored@ == items@.reverse(),
{
    let ghost given = items@;
    let mut rest = items;
    let mut mirrored: Vec<T> = Vec::new();
    while rest.len() > 0
        invariant
            rest.len() <= given.len(),
            rest@ == given.take(rest.len() as int),
            mirrored.len() == given.len() - rest.len(),
            forall|i: int| 0 <= i < mirrored.len() ==> mirrored[i] == given[given.len() - 1 - i],
        decreases rest.len(),
    {
        let ghost before = rest@;
        let item = rest.pop().unwrap();
        assert(item == given[before.len() - 1]);
        mirrored.push(item);
    }
    mirrored
}

impl DependencyGraph {
    /// The positions of the stacks in launch order, or a stack on a cycle.
    fn positions(&self) -> (outcome: Result<Vec<usize>, CycleError>)
        ensures
            match outcome {
                Ok(order) => {
                    &&& is_launch_order(adjacency(self.links@), numbers_of(order@))
                    &&& is_launch_sequence(self@, names_at(self@, numbers_of(order@)))
                    &&& forall|p: int| 0 <= p < order.len() ==> (#[trigger] order[p]) < self@.len()
                    &&& forall|i: int| 0 <= i < self@.len() ==> numbers_of(order@).contains(i)
                },
                Err(error) => depends_on_itself(self@, error.name@),
            },
            outcome is Ok <==> free_of_cycles(self@),
    {
        proof {
            use_type_invariant(self);
            lemma_links_closed(self@, self.links@);
            lemma_sorted_names_distinct(self@);
        }
        match launch_order(&self.links) {
            Ok(order) => {
                proof {
                    lemma_order_gives_sequence(self@, self.links@, numbers_of(order@));
                    assert forall|name: Seq<char>| !depends_on_itself(self@, name) by {
                        if depends_on_itself(self@, name) {
                            lemma_cycle_by_number(self@, self.links@, name);
                        }
                    }
                    assert forall|p: int| 0 <= p < order.len() implies (#[trigger] order[p])
                        < self@.len() by {
                        assert(numbers_of(order@)[p] == order[p]);
                    }
                    lemma_full_list_covers(numbers_of(order@), self@.len() as int);
                }
                Ok(order)
            },
            Err(v) => {
                proof {
                    lemma_cycle_by_name(self@, self.links@, v as int);
                }
                Err(CycleError { name: self.stacks[v].deploy.name.clone() })
            },
        }
    }

    /// The stacks in launch order: every stack behind all the stacks it
    /// depends on, and among stacks that could go next the one whose name
    /// comes first. With a dependency cycle there is no such order; the error
    /// names a stack on the cycle and nothing is returned.
    pub fn launch_sequence(&self) -> (outcome: Result<Vec<DeployFile>, CycleError>)
        ensures
            match outcome {
                Ok(files) => {
                    &&& is_launch_sequence(self@, names_of(manifests_of(files@)))
                    &&& same_stacks(manifests_of(files@), self@)
                    &&& dependencies_first(manifests_of(files@))
                },
                Err(error) => depends_on_itself(self@, error.name@),
            },
            outcome is Ok <==> free_of_cycles(self@),
    {
        let order = match self.positions() {
            Ok(order) => order,
            Err(error) => {
                return Err(error);
            },
        };
        let ghost wanted = names_at(self@, numbers_of(order@));
        let mut files: Vec<DeployFile> = Vec::new();
        let mut p: usize = 0;
        while p < order.len()
            invariant
                p <= order.len(),
                files.len() == p,
                forall|q: int| 0 <= q < order.len() ==> (#[trigger] order[q]) < self@.len(),
                forall|q: int| 0 <= q < p ==> (#[trigger] files[q])@ == self@[order[q] as int],
            decreases order.len() - p,
        {
            files.push(self.stacks[order[p]].clone());
            p += 1;
        }
        proof {
            assert(names_of(manifests_of(files@)) == wanted);
            let listed = manifests_of(files@);
            assert forall|q: int| 0 <= q < listed.len() implies self@.contains(
                #[trigger] listed[q],
            ) by {
                assert(self@[order[q] as int] == files[q]@);
            }
            assert forall|d: DeployFileView| listed.contains(d) <==> self@.contains(d) by {
                if listed.contains(d) {
                    let q = choose|q: int| 0 <= q < listed.len() && listed[q] == d;
                    assert(self@.contains(listed[q]));
                }
                if self@.contains(d) {
                    let i = choose|i: int| 0 <= i < self@.len() && self@[i] == d;
                    assert(numbers_of(order@).contains(i));
                    let q = choose|q: int|
                        0 <= q < numbers_of(order@).len() && numbers_of(order@)[q] == i;
                    assert(listed[q] == d);
                }
            }
            lemma_launch_puts_dependencies_first(self@, listed);
        }
        Ok(files)
    }

    /// The names of the stacks in launch order; see `launch_sequence`.
    pub fn order(&self) -> (outcome: Result<Vec<String>, CycleError>)
        ensures
            match outcome {
                Ok(names) => is_launch_sequence(self@, texts_of(names@)),
                Err(error) => depends_on_itself(self@, error.name@),
            },
            outcome is Ok <==> free_of_cycles(self@),
    {
        let order = match self.positions() {
            Ok(order) => order,
            Err(error) => {
                return Err(error);
            },
        };
        let ghost wanted = names_at(self@, numbers_of(order@));
        let mut names: Vec<String> = Vec::new();
        let mut p: usize = 0;
        while p < order.len()
            invariant
                p <= order.len(),
                names.len() == p,
                forall|q: int| 0 <= q < order.len() ==> (#[trigger] order[q]) < self@.len(),
                forall|q: int|
                    0 <= q < p ==> (#[trigger] names[q])@ == self@[order[q] as int].deploy.name,
            decreases order.len() - p,
        {
            names.push(self.stacks[order[p]].deploy.name.clone());
            p += 1;
        }
        proof {
            assert(texts_of(names@) == wanted);
        }
        Ok(names)
    }

    /// The names of the stacks in teardown order: the launch order read from
    /// its end to its beginning.
    pub fn reverse_order(&self) -> (outcome: Result<Vec<String>, CycleError>)
        ensures
            match outcome {
                Ok(names) => is_launch_sequence(self@, texts_of(names@).reverse()),
                Err(error) => depends_on_itself(self@, error.name@),
            },
            outcome is Ok <==> free_of_cycles(self@),
    {
        match self.order() {
            Ok(names) => {
                let ghost launch = texts_of(names@);
                let mirrored = reversed(names);
                proof {
                    assert(texts_of(mirrored@).reverse() == launch);
                }
                Ok(mirrored)
            },
            Err(error) => Err(error),
        }
    }
}

} // verus!
