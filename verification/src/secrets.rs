//! The credential tree and the resolver that finds one field value in it by
//! a slash-separated path.
//!
//! The tree is what an opened credential store holds: groups that contain
//! groups and entries, and entries that carry named fields. A path such as
//! `Vault/svc/creds/token` names the groups from the root down, then the
//! title of an entry, then one of its fields. Every step is compared without
//! regard to ASCII letter case.

use crate::deploy_file::{DeployFile, StackDeploy};
use crate::text::{
    chars_match_ignoring_case, chars_of, eq_ignoring_ascii_case, lemma_case_match_is_equivalence,
    lemma_split_respects_case, segments_match, segments_of, split_at_separator, split_segments,
};
use vstd::prelude::*;

verus! {

/// One named field of an entry.
#[derive(Debug)]
pub struct Field {
    /// the key under which the field is stored
    pub name: String,
    /// the text of the field; `None` for a field that holds no text, such as
    /// a binary attachment
    pub value: Option<String>,
}

/// A leaf of the tree: a titled set of fields.
#[derive(Debug)]
pub struct Entry {
    /// the title of the entry, if it has one
    pub title: Option<String>,
    /// the fields of the entry, in the order in which they are searched
    pub fields: Vec<Field>,
}

/// An inner node of the tree: a named collection of groups and entries.
#[derive(Debug)]
pub struct Group {
    /// the name of the group
    pub name: String,
    /// the groups and entries directly inside, in the order in which they
    /// are searched
    pub children: Vec<Node>,
}

/// A node of the credential tree.
#[derive(Debug)]
pub enum Node {
    Group(Group),
    Entry(Entry),
}

/// A field as plain text.
pub struct FieldView {
    pub name: Seq<char>,
    pub value: Option<Seq<char>>,
}

/// An entry as plain text.
pub struct EntryView {
    pub title: Option<Seq<char>>,
    pub fields: Seq<FieldView>,
}

/// A group as plain text.
pub struct GroupView {
    pub name: Seq<char>,
    pub children: Seq<NodeView>,
}

/// A node as plain text.
pub enum NodeView {
    Group(GroupView),
    Entry(EntryView),
}

/// The text of an optional string.
pub open spec fn text_of(value: Option<String>) -> Option<Seq<char>> {
    match value {
        Some(text) => Some(text@),
        None => None,
    }
}

impl View for Field {
    type V = FieldView;

    open spec fn view(&self) -> FieldView {
        FieldView { name: self.name@, value: text_of(self.value) }
    }
}

impl View for Entry {
    type V = EntryView;

    open spec fn view(&self) -> EntryView {
        EntryView {
            title: text_of(self.title),
            fields: Seq::new(self.fields@.len(), |i: int| self.fields@[i]@),
        }
    }
}

/// The plain-text form of a node and of everything below it.
pub open spec fn node_view(node: Node) -> NodeView
    decreases node, 0nat,
{
    match node {
        Node::Group(group) => NodeView::Group(group_view(group)),
        Node::Entry(entry) => NodeView::Entry(entry@),
    }
}

/// The plain-text form of a group and of everything below it.
pub open spec fn group_view(group: Group) -> GroupView
    decreases group, 1nat,
{
    GroupView { name: group.name@, children: children_view(group.children, 0) }
}

/// The plain-text forms of the children from position `from` on.
pub open spec fn children_view(children: Vec<Node>, from: int) -> Seq<NodeView>
    decreases children, children.len() - from,
{
    if 0 <= from < children.len() {
        seq![node_view(children[from])] + children_view(children, from + 1)
    } else {
        Seq::empty()
    }
}

impl View for Group {
    type V = GroupView;

    open spec fn view(&self) -> GroupView {
        group_view(*self)
    }
}

impl View for Node {
    type V = NodeView;

    open spec fn view(&self) -> NodeView {
        node_view(*self)
    }
}

/// The value of the first field from position `from` on whose name is
/// `wanted`, letter case aside; `None` when there is no such field or when it
/// holds no text.
pub open spec fn field_value(fields: Seq<FieldView>, wanted: Seq<char>, from: int) -> Option<
    Seq<char>,
>
    decreases fields.len() - from,
{
    if 0 <= from < fields.len() {
        if eq_ignoring_ascii_case(fields[from].name, wanted) {
            fields[from].value
        } else {
            field_value(fields, wanted, from + 1)
        }
    } else {
        None
    }
}

/// What the path segments in `path` lead to when they are followed from
/// `node`.
///
/// The first segment has to name `node` itself. Below a group the remaining
/// segments are tried on each child in turn, and the first child under which
/// they lead to a value decides. At an entry exactly two segments must be
/// left: its title and the name of one of its fields.
pub open spec fn resolve_in_node(node: NodeView, path: Seq<Seq<char>>) -> Option<Seq<char>>
    decreases node, 0nat,
{
    if path.len() == 0 {
        None
    } else {
        match node {
            NodeView::Group(group) => {
                if eq_ignoring_ascii_case(group.name, path[0]) {
                    resolve_in_children(group.children, path.drop_first(), 0)
                } else {
                    None
                }
            },
            NodeView::Entry(entry) => {
                if entry.title is Some && eq_ignoring_ascii_case(entry.title->0, path[0])
                    && path.len() == 2 {
                    field_value(entry.fields, path[1], 0)
                } else {
                    None
                }
            },
        }
    }
}

/// What `path` leads to under the first child, from position `from` on, under
/// which it leads anywhere.
pub open spec fn resolve_in_children(children: Seq<NodeView>, path: Seq<Seq<char>>, from: int) -> Option<
    Seq<char>,
>
    decreases children, children.len() - from,
{
    if 0 <= from < children.len() {
        match resolve_in_node(children[from], path) {
            Some(value) => Some(value),
            None => resolve_in_children(children, path, from + 1),
        }
    } else {
        None
    }
}

/// What the slash-separated `path` leads to in the tree under `root`.
pub open spec fn resolve_path(root: GroupView, path: Seq<char>) -> Option<Seq<char>> {
    resolve_in_node(NodeView::Group(root), split_segments(path, '/'))
}

/// The letter case of a path does not matter: two paths that differ only in
/// ASCII letter case lead to the same value, or both to nothing.
pub proof fn lemma_path_case_is_ignored(root: GroupView, a: Seq<char>, b: Seq<char>)
    requires
        eq_ignoring_ascii_case(a, b),
    ensures
        resolve_path(root, a) == resolve_path(root, b),
{
    lemma_split_respects_case(a, b, '/');
    lemma_node_ignores_case(NodeView::Group(root), split_segments(a, '/'), split_segments(b, '/'));
}

/// A name that matches one of two matching segments matches the other.
proof fn lemma_match_carries_over(name: Seq<char>, a: Seq<char>, b: Seq<char>)
    requires
        eq_ignoring_ascii_case(a, b),
    ensures
        eq_ignoring_ascii_case(name, a) == eq_ignoring_ascii_case(name, b),
{
    lemma_case_match_is_equivalence(name, a, b);
    lemma_case_match_is_equivalence(a, b, a);
    lemma_case_match_is_equivalence(name, b, a);
}

/// Following matching segments from a node leads to the same value.
proof fn lemma_node_ignores_case(node: NodeView, a: Seq<Seq<char>>, b: Seq<Seq<char>>)
    requires
        segments_match(a, b),
    ensures
        resolve_in_node(node, a) == resolve_in_node(node, b),
    decreases node, 0nat,
{
    if a.len() > 0 {
        assert(eq_ignoring_ascii_case(a[0], b[0]));
        match node {
            NodeView::Group(group) => {
                lemma_match_carries_over(group.name, a[0], b[0]);
                assert forall|i: int| 0 <= i < a.drop_first().len() implies eq_ignoring_ascii_case(
                    #[trigger] a.drop_first()[i],
                    b.drop_first()[i],
                ) by {
                    assert(eq_ignoring_ascii_case(a[i + 1], b[i + 1]));
                }
                lemma_children_ignore_case(group.children, a.drop_first(), b.drop_first(), 0);
            },
            NodeView::Entry(entry) => {
                if entry.title is Some {
                    lemma_match_carries_over(entry.title->0, a[0], b[0]);
                }
                if a.len() == 2 {
                    assert(eq_ignoring_ascii_case(a[1], b[1]));
                    lemma_fields_ignore_case(entry.fields, a[1], b[1], 0);
                }
            },
        }
    }
}

/// Following matching segments under a list of children leads to the same
/// value.
proof fn lemma_children_ignore_case(
    children: Seq<NodeView>,
    a: Seq<Seq<char>>,
    b: Seq<Seq<char>>,
    from: int,
)
    requires
        segments_match(a, b),
    ensures
        resolve_in_children(children, a, from) == resolve_in_children(children, b, from),
    decreases children, children.len() - from,
{
    if 0 <= from < children.len() {
        lemma_node_ignores_case(children[from], a, b);
        lemma_children_ignore_case(children, a, b, from + 1);
    }
}

/// Looking up matching field names finds the same field.
proof fn lemma_fields_ignore_case(fields: Seq<FieldView>, a: Seq<char>, b: Seq<char>, from: int)
    requires
        eq_ignoring_ascii_case(a, b),
    ensures
        field_value(fields, a, from) == field_value(fields, b, from),
    decreases fields.len() - from,
{
    if 0 <= from < fields.len() {
        lemma_match_carries_over(fields[from].name, a, b);
        lemma_fields_ignore_case(fields, a, b, from + 1);
    }
}

/// A path of fewer than three segments leads nowhere: it takes the name of
/// the root group, the title of an entry and the name of a field at least.
pub proof fn lemma_short_path_resolves_to_nothing(root: GroupView, path: Seq<char>)
    requires
        split_segments(path, '/').len() < 3,
    ensures
        resolve_path(root, path) is None,
{
    let segments = split_segments(path, '/');
    if segments.len() > 0 {
        lemma_children_need_two_segments(root.children, segments.drop_first(), 0);
    }
}

/// A node only yields a value for a path of at least two segments.
proof fn lemma_node_needs_two_segments(node: NodeView, path: Seq<Seq<char>>)
    requires
        path.len() < 2,
    ensures
        resolve_in_node(node, path) is None,
    decreases node, 0nat,
{
    if path.len() > 0 {
        match node {
            NodeView::Group(group) => {
                lemma_children_need_two_segments(group.children, path.drop_first(), 0);
            },
            NodeView::Entry(entry) => {},
        }
    }
}

/// Children only yield a value for a path of at least two segments.
proof fn lemma_children_need_two_segments(children: Seq<NodeView>, path: Seq<Seq<char>>, from: int)
    requires
        path.len() < 2,
    ensures
        resolve_in_children(children, path, from) is None,
    decreases children, children.len() - from,
{
    if 0 <= from < children.len() {
        lemma_node_needs_two_segments(children[from], path);
        lemma_children_need_two_segments(children, path, from + 1);
    }
}

/// The plain-text children of a group are the plain-text forms of its
/// children, position by position.
pub proof fn lemma_children_view(children: Vec<Node>, from: int)
    requires
        0 <= from <= children.len(),
    ensures
        children_view(children, from).len() == children.len() - from,
        forall|i: int|
            0 <= i < children.len() - from ==> #[trigger] children_view(children, from)[i]
                == node_view(children[from + i]),
    decreases children.len() - from,
{
    if from < children.len() {
        lemma_children_view(children, from + 1);
        let rest = children_view(children, from + 1);
        assert forall|i: int| 0 <= i < children.len() - from implies #[trigger] children_view(
            children,
            from,
        )[i] == node_view(children[from + i]) by {
            if i > 0 {
                assert(children_view(children, from)[i] == rest[i - 1]);
            }
        }
    }
}

impl Entry {
    /// The text of the first field called `wanted`, letter case aside.
    fn field(&self, wanted: &Vec<char>) -> (value: Option<String>)
        ensures
            text_of(value) == field_value(self@.fields, wanted@, 0),
    {
        let mut i: usize = 0;
        while i < self.fields.len()
            invariant
                i <= self.fields.len(),
                field_value(self@.fields, wanted@, 0) == field_value(self@.fields, wanted@, i as int),
            decreases self.fields.len() - i,
        {
            let name = chars_of(self.fields[i].name.as_str());
            if chars_match_ignoring_case(&name, wanted) {
                return match &self.fields[i].value {
                    Some(text) => Some(text.clone()),
                    None => None,
                };
            }
            i += 1;
        }
        None
    }

    /// Follows the segments of `path` from position `from` on at this entry.
    fn resolve(&self, path: &Vec<Vec<char>>, from: usize) -> (value: Option<String>)
        requires
            from <= path.len(),
        ensures
            text_of(value) == resolve_in_node(
                NodeView::Entry(self@),
                segments_of(path@).skip(from as int),
            ),
    {
        let ghost rest = segments_of(path@).skip(from as int);
        if from >= path.len() {
            return None;
        }
        assert(rest[0] == path[from as int]@);
        let titled = match &self.title {
            Some(title) => {
                let title = chars_of(title.as_str());
                chars_match_ignoring_case(&title, &path[from])
            },
            None => false,
        };
        if !titled || path.len() - from != 2 {
            return None;
        }
        assert(rest[1] == path[from + 1]@);
        self.field(&path[from + 1])
    }
}

impl Group {
    /// Follows the segments of `path` from position `from` on at this group.
    fn resolve(&self, path: &Vec<Vec<char>>, from: usize) -> (value: Option<String>)
        requires
            from <= path.len(),
        ensures
            text_of(value) == resolve_in_node(
                NodeView::Group(self@),
                segments_of(path@).skip(from as int),
            ),
        decreases self, 1nat,
    {
        let ghost rest = segments_of(path@).skip(from as int);
        if from >= path.len() {
            return None;
        }
        assert(rest[0] == path[from as int]@);
        let name = chars_of(self.name.as_str());
        if !chars_match_ignoring_case(&name, &path[from]) {
            return None;
        }
        let ghost below = segments_of(path@).skip(from + 1);
        let ghost children = self@.children;
        proof {
            assert(rest.drop_first() == below);
            lemma_children_view(self.children, 0);
        }
        let mut i: usize = 0;
        while i < self.children.len()
            invariant
                i <= self.children.len(),
                from < path.len(),
                rest == segments_of(path@).skip(from as int),
                below == segments_of(path@).skip(from + 1),
                children == self@.children,
                children.len() == self.children.len(),
                forall|j: int|
                    0 <= j < children.len() ==> #[trigger] children[j] == node_view(
                        self.children[j],
                    ),
                resolve_in_node(NodeView::Group(self@), rest) == resolve_in_children(
                    children,
                    below,
                    i as int,
                ),
            decreases self.children.len() - i,
        {
            let found = self.children[i].resolve(path, from + 1);
            if found.is_some() {
                return found;
            }
            i += 1;
        }
        None
    }
}

impl Node {
    /// Follows the segments of `path` from position `from` on at this node.
    fn resolve(&self, path: &Vec<Vec<char>>, from: usize) -> (value: Option<String>)
        requires
            from <= path.len(),
        ensures
            text_of(value) == resolve_in_node(self@, segments_of(path@).skip(from as int)),
        decreases self, 2nat,
    {
        match self {
            Node::Group(group) => group.resolve(path, from),
            Node::Entry(entry) => entry.resolve(path, from),
        }
    }
}

/// An opened credential store: the tree of groups and entries under its root.
#[derive(Debug)]
pub struct KeePassDB {
    root: Group,
}

impl View for KeePassDB {
    type V = GroupView;

    /// The root group with everything below it.
    closed spec fn view(&self) -> GroupView {
        self.root@
    }
}

/// A secret that a stack asks for and the store does not hold.
#[derive(Debug)]
pub struct SecretMiss {
    /// the environment variable that was to receive the secret
    pub variable: String,
    /// the path under which the secret was looked for
    pub path: String,
}

/// The test for a request that the tree under `root` cannot serve: the path
/// of the request leads nowhere.
pub open spec fn unresolved(root: GroupView) -> spec_fn((Seq<char>, Seq<char>)) -> bool {
    |request: (Seq<char>, Seq<char>)| resolve_path(root, request.1) is None
}

/// `outcome` is the answer of the tree under `root` to the requests in
/// `wanted`, each a variable with the path of its secret. It is `Ok` exactly
/// when every path resolves, and then gives each variable its value, in the
/// order asked. Otherwise it lists the requests whose path leads nowhere, in
/// the order asked.
pub open spec fn serves(
    root: GroupView,
    wanted: Seq<(Seq<char>, Seq<char>)>,
    outcome: Result<Vec<(String, String)>, Vec<SecretMiss>>,
) -> bool {
    &&& match outcome {
        Ok(env) => {
            &&& env.len() == wanted.len()
            &&& forall|i: int|
                0 <= i < env.len() ==> (#[trigger] env[i]).0@ == wanted[i].0 && Some(env[i].1@)
                    == resolve_path(root, wanted[i].1)
        },
        Err(misses) => misses_of(misses@) == wanted.filter(unresolved(root)),
    }
    &&& outcome is Ok <==> forall|i: int|
        0 <= i < wanted.len() ==> resolve_path(root, (#[trigger] wanted[i]).1) is Some
}

/// The variable and path of each miss, as plain text.
pub open spec fn misses_of(misses: Seq<SecretMiss>) -> Seq<(Seq<char>, Seq<char>)> {
    Seq::new(misses.len(), |i: int| (misses[i].variable@, misses[i].path@))
}

impl KeePassDB {
    /// Wraps the tree under `root`, as read from an opened store.
    pub fn new(root: Group) -> (db: KeePassDB)
        ensures
            db@ == root@,
    {
        KeePassDB { root }
    }

    /// The root group of the store.
    pub fn root(&self) -> (root: &Group)
        ensures
            root@ == self@,
    {
        &self.root
    }

    /// Given a path like `Database/group/group/entryname/fieldname`, returns
    /// the text of that field; `None` when the path leads nowhere.
    ///
    /// The path is split at every `/`. Its first segment names the root group
    /// and each further one a group inside the one before, until an entry is
    /// reached; then exactly two segments must be left, the title of the entry
    /// and the name of one of its fields. Where several children of a group
    /// fit, they are tried in order and the first under which the whole rest
    /// of the path resolves decides. All names are compared without regard to
    /// ASCII letter case. A path that ends too early or goes on too long
    /// resolves to nothing.
    pub fn resolve_value(&self, path: &str) -> (value: Option<String>)
        ensures
            text_of(value) == resolve_path(self@, path@),
    {
        let segments = split_at_separator(path, '/');
        assert(segments_of(segments@).skip(0) == segments_of(segments@));
        self.root.resolve(&segments, 0)
    }
}

impl KeePassDB {
    /// Looks up every secret that `deploy` asks for in `secret_env`.
    ///
    /// When all of them are found, the result pairs each variable with its
    /// value, in the order of `secret_env`. When any is missing the stack must
    /// not be launched: the result then lists every request that could not be
    /// served, again in that order, and no values.
    pub fn resolve_env(&self, deploy: &StackDeploy) -> (outcome: Result<
        Vec<(String, String)>,
        Vec<SecretMiss>,
    >)
        ensures
            serves(self@, deploy@.secret_env, outcome),
    {
        let ghost wanted = deploy@.secret_env;
        let ghost test = unresolved(self@);
        let mut env: Vec<(String, String)> = Vec::new();
        let mut misses: Vec<SecretMiss> = Vec::new();
        proof {
            reveal(Seq::filter);
            assert(wanted.take(0) == Seq::<(Seq<char>, Seq<char>)>::empty());
            assert(misses_of(misses@) == Seq::<(Seq<char>, Seq<char>)>::empty());
        }
        let mut i: usize = 0;
        while i < deploy.secret_env.len()
            invariant
                wanted == deploy@.secret_env,
                test == unresolved(self@),
                i <= deploy.secret_env.len(),
                misses_of(misses@) == wanted.take(i as int).filter(test),
                misses.len() == 0 ==> env.len() == i,
                misses.len() == 0 ==> forall|j: int|
                    0 <= j < i ==> (#[trigger] env[j]).0@ == wanted[j].0 && Some(env[j].1@)
                        == resolve_path(self@, wanted[j].1),
                misses.len() > 0 ==> exists|j: int|
                    0 <= j < i && resolve_path(self@, (#[trigger] wanted[j]).1) is None,
            decreases deploy.secret_env.len() - i,
        {
            let ghost seen = wanted.take(i as int);
            let ghost missed = misses_of(misses@);
            let ghost request = wanted[i as int];
            proof {
                assert(wanted.take(i + 1) == seen.push(request));
                seen.lemma_filter_push(request, test);
            }
            let variable = deploy.secret_env[i].0.clone();
            match self.resolve_value(deploy.secret_env[i].1.as_str()) {
                Some(value) => {
                    env.push((variable, value));
                },
                None => {
                    misses.push(SecretMiss { variable, path: deploy.secret_env[i].1.clone() });
                    assert(misses_of(misses@) == missed.push(request));
                },
            }
            i += 1;
        }
        proof {
            assert(wanted.take(i as int) == wanted);
        }
        if misses.len() == 0 {
            proof {
                assert forall|j: int| 0 <= j < wanted.len() implies resolve_path(
                    self@,
                    (#[trigger] wanted[j]).1,
                ) is Some by {
                    assert(Some(env[j].1@) == resolve_path(self@, wanted[j].1));
                }
            }
            Ok(env)
        } else {
            Err(misses)
        }
    }
}

/// Decides, for each stack of a launch order, what its launch needs: the
/// environment to start it with, or the secrets whose absence forbids the
/// start. A stack with a missing secret does not hold up the others; every
/// stack is looked at, in the order given.
pub fn plan_deploy(db: &KeePassDB, sorted: &Vec<DeployFile>) -> (plans: Vec<
    Result<Vec<(String, String)>, Vec<SecretMiss>>,
>)
    ensures
        plans.len() == sorted.len(),
        forall|i: int|
            0 <= i < plans.len() ==> serves(db@, sorted[i]@.deploy.secret_env, #[trigger] plans[i]),
{
    let mut plans: Vec<Result<Vec<(String, String)>, Vec<SecretMiss>>> = Vec::new();
    let mut i: usize = 0;
    while i < sorted.len()
        invariant
            i <= sorted.len(),
            plans.len() == i,
            forall|j: int|
                0 <= j < i ==> serves(db@, sorted[j]@.deploy.secret_env, #[trigger] plans[j]),
        decreases sorted.len() - i,
    {
        plans.push(db.resolve_env(&sorted[i].deploy));
        i += 1;
    }
    plans
}

} // verus!
