//! The stack descriptor, the manifest it came from, and the host filter.

use crate::graph::{
    dependencies_present, names_distinct, same_stacks, BuildError, CycleError, DependencyGraph,
};
use crate::launch::{
    dependencies_first, depends_on_itself, free_of_cycles, is_launch_sequence,
    lemma_cycles_ignore_arrangement, lemma_sequence_ignores_arrangement,
};
use crate::text::same_text;
use std::path::PathBuf;
use vstd::prelude::*;

verus! {

/// `std::path::PathBuf`, carried through as the opaque origin of a descriptor.
#[verifier::external_type_specification]
#[verifier::external_body]
pub struct ExPathBuf(PathBuf);

/// `PathBuf::clone` yields a path equal to the one it was given.
pub assume_specification[ <PathBuf as Clone>::clone ](path: &PathBuf) -> (copy: PathBuf)
    ensures
        copy == *path,
;

/// The token in `runs_on` that stands for every host.
pub open spec fn any_host() -> Seq<char> {
    seq!['*']
}

/// The character sequences of a list of strings.
pub open spec fn texts_of(items: Seq<String>) -> Seq<Seq<char>> {
    Seq::new(items.len(), |i: int| items[i]@)
}

/// The character sequences of a list of string pairs.
pub open spec fn text_pairs_of(items: Seq<(String, String)>) -> Seq<(Seq<char>, Seq<char>)> {
    Seq::new(items.len(), |i: int| (items[i].0@, items[i].1@))
}

/// One stack as its manifest declares it.
#[derive(Debug)]
pub struct StackDeploy {
    /// Name of this stack
    pub name: String,
    /// Names of the stacks that must be running before this one starts
    pub depends_on: Vec<String>,
    /// Environment variables to fill from the credential store when the stack
    /// is launched: variable name, then the path of the secret
    pub secret_env: Vec<(String, String)>,
    /// Host names on which this stack runs; `*` stands for every host
    pub runs_on: Vec<String>,
}

/// What a descriptor says, as plain text.
pub struct StackDeployView {
    pub name: Seq<char>,
    pub depends_on: Seq<Seq<char>>,
    pub secret_env: Seq<(Seq<char>, Seq<char>)>,
    pub runs_on: Seq<Seq<char>>,
}

impl View for StackDeploy {
    type V = StackDeployView;

    open spec fn view(&self) -> StackDeployView {
        StackDeployView {
            name: self.name@,
            depends_on: texts_of(self.depends_on@),
            secret_env: text_pairs_of(self.secret_env@),
            runs_on: texts_of(self.runs_on@),
        }
    }
}

impl StackDeployView {
    /// The host filter: this stack belongs on `host` when `runs_on` names the
    /// host literally or holds the wildcard.
    pub open spec fn applies(self, host: Seq<char>) -> bool {
        self.runs_on.contains(any_host()) || self.runs_on.contains(host)
    }

    /// No variable of `secret_env` is listed twice.
    pub open spec fn secret_env_keys_unique(self) -> bool {
        forall|i: int, j: int|
            0 <= i < j < self.secret_env.len() ==> (#[trigger] self.secret_env[i]).0 != (
            #[trigger] self.secret_env[j]).0
    }
}

/// A stack that lists a single host token is accepted on `host` exactly when
/// that token is the wildcard or spells the name of the host. So `["*"]` is
/// accepted everywhere, and `["host-x"]` on the host called `host-x` only.
pub proof fn lemma_single_token_filter(stack: StackDeployView, token: Seq<char>, host: Seq<char>)
    requires
        stack.runs_on == seq![token],
    ensures
        stack.applies(host) <==> (token == any_host() || token == host),
{
    assert(stack.runs_on[0] == token);
}

impl Clone for StackDeploy {
    fn clone(&self) -> (copy: Self)
        ensures
            copy@ == self@,
    {
        let mut secret_env: Vec<(String, String)> = Vec::new();
        let mut i: usize = 0;
        while i < self.secret_env.len()
            invariant
                i <= self.secret_env.len(),
                text_pairs_of(secret_env@) == text_pairs_of(self.secret_env@).take(i as int),
            decreases self.secret_env.len() - i,
        {
            let ghost before = text_pairs_of(secret_env@);
            secret_env.push((self.secret_env[i].0.clone(), self.secret_env[i].1.clone()));
            assert(text_pairs_of(secret_env@) == before.push(
                text_pairs_of(self.secret_env@)[i as int],
            ));
            i += 1;
        }
        let copy = StackDeploy {
            name: self.name.clone(),
            depends_on: clone_texts(&self.depends_on),
            secret_env,
            runs_on: clone_texts(&self.runs_on),
        };
        assert(text_pairs_of(self.secret_env@).take(i as int) == text_pairs_of(self.secret_env@));
        copy
    }
}

/// A copy of a list of strings.
fn clone_texts(items: &Vec<String>) -> (copy: Vec<String>)
    ensures
        texts_of(copy@) == texts_of(items@),
{
    let mut copy: Vec<String> = Vec::new();
    let mut i: usize = 0;
    while i < items.len()
        invariant
            i <= items.len(),
            texts_of(copy@) == texts_of(items@).take(i as int),
        decreases items.len() - i,
    {
        let ghost before = texts_of(copy@);
        copy.push(items[i].clone());
        assert(texts_of(copy@) == before.push(texts_of(items@)[i as int]));
        i += 1;
    }
    assert(texts_of(items@).take(i as int) == texts_of(items@));
    copy
}

impl StackDeploy {
    /// Whether a list of host tokens holds `wanted`.
    fn lists(tokens: &Vec<String>, wanted: &str) -> (found: bool)
        ensures
            found == texts_of(tokens@).contains(wanted@),
    {
        let mut i: usize = 0;
        while i < tokens.len()
            invariant
                i <= tokens.len(),
                forall|j: int| 0 <= j < i ==> texts_of(tokens@)[j] != wanted@,
            decreases tokens.len() - i,
        {
            if same_text(tokens[i].as_str(), wanted) {
                assert(texts_of(tokens@)[i as int] == wanted@);
                return true;
            }
            i += 1;
        }
        false
    }

    /// Whether `secret_env` is a proper mapping: no variable is listed twice.
    pub fn secret_env_keys_unique(&self) -> (unique: bool)
        ensures
            unique == self@.secret_env_keys_unique(),
    {
        let ghost pairs = self@.secret_env;
        let mut j: usize = 0;
        while j < self.secret_env.len()
            invariant
                pairs == self@.secret_env,
                j <= self.secret_env.len(),
                forall|a: int, b: int|
                    0 <= a < b < j ==> (#[trigger] pairs[a]).0 != (#[trigger] pairs[b]).0,
            decreases self.secret_env.len() - j,
        {
            let mut i: usize = 0;
            while i < j
                invariant
                    pairs == self@.secret_env,
                    j < self.secret_env.len(),
                    i <= j,
                    forall|a: int| 0 <= a < i ==> (#[trigger] pairs[a]).0 != pairs[j as int].0,
                decreases j - i,
            {
                if self.secret_env[i].0 == self.secret_env[j].0 {
                    assert(pairs[i as int].0 == pairs[j as int].0);
                    return false;
                }
                i += 1;
            }
            j += 1;
        }
        true
    }

    /// The host filter: whether the host called `host` is responsible for this
    /// stack. The host name is compared literally, case included; the token
    /// `*` accepts every host.
    pub fn applies(&self, host: &str) -> (accepted: bool)
        ensures
            accepted == self@.applies(host@),
    {
        let wildcard = "*";
        proof {
            reveal_strlit("*");
            assert(wildcard@ == any_host());
        }
        Self::lists(&self.runs_on, host) || Self::lists(&self.runs_on, wildcard)
    }
}

/// A stack descriptor together with the manifest file it was read from.
#[derive(Debug)]
pub struct DeployFile {
    /// Where the manifest lies; used to point at it in diagnostics
    pub path: PathBuf,
    /// The descriptor read from the manifest
    pub deploy: StackDeploy,
}

/// A manifest as plain values: its origin and what it declares.
pub struct DeployFileView {
    pub path: PathBuf,
    pub deploy: StackDeployView,
}

impl View for DeployFile {
    type V = DeployFileView;

    open spec fn view(&self) -> DeployFileView {
        DeployFileView { path: self.path, deploy: self.deploy@ }
    }
}

impl Clone for DeployFile {
    fn clone(&self) -> (copy: Self)
        ensures
            copy@ == self@,
    {
        DeployFile { path: self.path.clone(), deploy: self.deploy.clone() }
    }
}

/// The plain values of a list of manifests.
pub open spec fn manifests_of(files: Seq<DeployFile>) -> Seq<DeployFileView> {
    Seq::new(files.len(), |i: int| files[i]@)
}

/// The stack names of a list of manifests.
pub open spec fn names_of(files: Seq<DeployFileView>) -> Seq<Seq<char>> {
    Seq::new(files.len(), |i: int| files[i].deploy.name)
}

/// The test that the host filter applies to each manifest on `host`.
pub open spec fn host_filter(host: Seq<char>) -> spec_fn(DeployFileView) -> bool {
    |file: DeployFileView| file.deploy.applies(host)
}

/// The manifests that `host` is responsible for, in the order given.
pub open spec fn accepted_on(files: Seq<DeployFileView>, host: Seq<char>) -> Seq<DeployFileView> {
    files.filter(host_filter(host))
}

/// Why no launch order could be worked out for a set of manifests.
#[derive(Debug)]
pub enum LoadError {
    /// The stacks do not form a graph: a name is taken twice, or a
    /// dependency is not among them.
    Build(BuildError),
    /// The stacks form a graph, but it has a dependency cycle.
    Cycle(CycleError),
}

impl LoadError {
    /// The wording of the error.
    pub open spec fn message_text(self) -> Seq<char> {
        match self {
            LoadError::Build(error) => error.message_text(),
            LoadError::Cycle(error) => error.message_text(),
        }
    }

    /// The error in words, for the operator.
    pub fn message(&self) -> (text: String)
        ensures
            text@ == self.message_text(),
    {
        match self {
            LoadError::Build(error) => error.message(),
            LoadError::Cycle(error) => error.message(),
        }
    }
}

/// Keeps the manifests of the stacks that `host` is responsible for and drops
/// the others, leaving the order of the rest as it was.
pub fn accept_for_host(host: &str, files: Vec<DeployFile>) -> (accepted: Vec<DeployFile>)
    ensures
        manifests_of(accepted@) == accepted_on(manifests_of(files@), host@),
{
    let ghost given = manifests_of(files@);
    let ghost test = host_filter(host@);
    let mut accepted: Vec<DeployFile> = Vec::new();
    proof {
        assert(given.take(0) == Seq::<DeployFileView>::empty());
        assert(manifests_of(accepted@) == Seq::<DeployFileView>::empty());
        reveal(Seq::filter);
    }
    for file in it: files
        invariant
            it.seq() == files@,
            given == manifests_of(files@),
            test == host_filter(host@),
            manifests_of(accepted@) == given.take(it.index() as int).filter(test),
    {
        let ghost seen = given.take(it.index() as int);
        let ghost kept = manifests_of(accepted@);
        proof {
            assert(given.take(it.index() + 1) == seen.push(file@));
            seen.lemma_filter_push(file@, test);
        }
        if file.deploy.applies(host) {
            accepted.push(file);
            assert(manifests_of(accepted@) == kept.push(file@));
        }
    }
    proof {
        assert(given.take(given.len() as int) == given);
    }
    accepted
}

/// Works out the order in which `host` has to launch its stacks.
///
/// `files` are the parsed manifests, in the order in which they were found;
/// `files_specified` says whether they came from an explicit list of files
/// rather than a scan, which only matters for the wording of a
/// missing-dependency error. Stacks that are not meant for `host` are left
/// out before anything is checked, so they neither clash with a name nor
/// satisfy a dependency. The rest is returned with every stack behind all the
/// stacks it depends on; among stacks that could go next, the one whose name
/// comes first in dictionary order goes first. A repeated name, a dependency
/// that is not among the accepted stacks, or a dependency cycle fails the
/// whole call.
pub fn load_stacks(host: &str, files: Vec<DeployFile>, files_specified: bool) -> (outcome: Result<
    Vec<DeployFile>,
    LoadError,
>)
    ensures
        ({
            let accepted = accepted_on(manifests_of(files@), host@);
            match outcome {
                Ok(sorted) => {
                    &&& is_launch_sequence(accepted, names_of(manifests_of(sorted@)))
                    &&& same_stacks(manifests_of(sorted@), accepted)
                    &&& dependencies_first(manifests_of(sorted@))
                },
                Err(LoadError::Build(error)) => error.describes(accepted, files_specified),
                Err(LoadError::Cycle(error)) => {
                    &&& names_distinct(accepted)
                    &&& dependencies_present(accepted)
                    &&& depends_on_itself(accepted, error.name@)
                },
            }
        }),
        outcome is Ok <==> {
            let accepted = accepted_on(manifests_of(files@), host@);
            names_distinct(accepted) && dependencies_present(accepted) && free_of_cycles(accepted)
        },
{
    let accepted = accept_for_host(host, files);
    let ghost stacks = manifests_of(accepted@);
    let graph = match DependencyGraph::build(accepted, files_specified) {
        Ok(graph) => graph,
        Err(error) => {
            return Err(LoadError::Build(error));
        },
    };
    match graph.launch_sequence() {
        Ok(sorted) => {
            proof {
                lemma_sequence_ignores_arrangement(
                    graph@,
                    stacks,
                    names_of(manifests_of(sorted@)),
                );
                assert forall|name: Seq<char>| !depends_on_itself(stacks, name) by {
                    if depends_on_itself(stacks, name) {
                        lemma_cycles_ignore_arrangement(stacks, graph@, name);
                    }
                }
            }
            Ok(sorted)
        },
        Err(error) => {
            proof {
                lemma_cycles_ignore_arrangement(graph@, stacks, error.name@);
            }
            Err(LoadError::Cycle(error))
        },
    }
}

/// The order in which to stop what `load_stacks` said to launch: the launch
/// order from its end to its beginning.
pub fn teardown_order(launch: Vec<DeployFile>) -> (teardown: Vec<DeployFile>)
    ensures
        teardown@ == launch@.reverse(),
{
    crate::graph::reversed(launch)
}

} // verus!
