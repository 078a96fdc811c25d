use stack_deploy::deploy_file::{
    accept_for_host, load_stacks, teardown_order, DeployFile, LoadError, StackDeploy,
};
use stack_deploy::graph::BuildError;
use std::path::PathBuf;

fn stack(name: &str, depends_on: &[&str], runs_on: &[&str]) -> DeployFile {
    DeployFile {
        path: PathBuf::from(format!("{name}/stack-deploy.toml")),
        deploy: StackDeploy {
            name: name.to_string(),
            depends_on: depends_on.iter().map(|s| s.to_string()).collect(),
            secret_env: Vec::new(),
            runs_on: runs_on.iter().map(|s| s.to_string()).collect(),
        },
    }
}

fn stack_at(path: &str, name: &str, depends_on: &[&str], runs_on: &[&str]) -> DeployFile {
    let mut file = stack(name, depends_on, runs_on);
    file.path = PathBuf::from(path);
    file
}

fn names(files: &[DeployFile]) -> Vec<String> {
    files.iter().map(|f| f.deploy.name.clone()).collect()
}

#[test]
fn chain_of_three_launches_in_dependency_order() {
    let files = vec![
        stack("A", &[], &["*"]),
        stack("B", &["A"], &["*"]),
        stack("C", &["B"], &["*"]),
    ];
    let sorted = load_stacks("anywhere", files, false).unwrap();
    assert_eq!(names(&sorted), vec!["A", "B", "C"]);
    let stop = teardown_order(sorted);
    assert_eq!(names(&stop), vec!["C", "B", "A"]);
}

#[test]
fn chain_of_three_does_not_depend_on_file_order() {
    let files = vec![
        stack("C", &["B"], &["*"]),
        stack("A", &[], &["*"]),
        stack("B", &["A"], &["*"]),
    ];
    let sorted = load_stacks("anywhere", files, false).unwrap();
    assert_eq!(names(&sorted), vec!["A", "B", "C"]);
}

#[test]
fn launch_order_keeps_the_whole_descriptor() {
    let mut db = stack_at("deploy/db.toml", "db", &[], &["*"]);
    db.deploy.secret_env.push(("DB_PASS".to_string(), "Vault/db/root/password".to_string()));
    let files = vec![stack_at("deploy/web.toml", "web", &["db"], &["*"]), db];
    let sorted = load_stacks("h", files, true).unwrap();
    assert_eq!(names(&sorted), vec!["db", "web"]);
    assert_eq!(sorted[0].path, PathBuf::from("deploy/db.toml"));
    assert_eq!(
        sorted[0].deploy.secret_env,
        vec![("DB_PASS".to_string(), "Vault/db/root/password".to_string())]
    );
    assert_eq!(sorted[1].path, PathBuf::from("deploy/web.toml"));
    assert_eq!(sorted[1].deploy.depends_on, vec!["db".to_string()]);
    assert_eq!(sorted[1].deploy.runs_on, vec!["*".to_string()]);
}

#[test]
fn independent_stacks_launch_in_ascending_name_order() {
    let files = vec![
        stack("delta", &[], &["*"]),
        stack("alpha", &[], &["*"]),
        stack("charlie", &[], &["*"]),
        stack("bravo", &[], &["*"]),
    ];
    let sorted = load_stacks("h", files, false).unwrap();
    assert_eq!(names(&sorted), vec!["alpha", "bravo", "charlie", "delta"]);
}

#[test]
fn earliest_ready_name_goes_first_at_every_step() {
    // a waits for c; b and d wait for nothing.
    let files = vec![
        stack("a", &["c"], &["*"]),
        stack("b", &[], &["*"]),
        stack("c", &[], &["*"]),
        stack("d", &[], &["*"]),
    ];
    let sorted = load_stacks("h", files, false).unwrap();
    assert_eq!(names(&sorted), vec!["b", "c", "a", "d"]);
}

#[test]
fn names_are_ordered_by_character_not_by_length() {
    let files = vec![
        stack("web10", &[], &["*"]),
        stack("web", &[], &["*"]),
        stack("Web", &[], &["*"]),
        stack("web2", &[], &["*"]),
    ];
    let sorted = load_stacks("h", files, false).unwrap();
    assert_eq!(names(&sorted), vec!["Web", "web", "web10", "web2"]);
}

#[test]
fn diamond_launches_shared_dependency_once_and_first() {
    let files = vec![
        stack("top", &["left", "right"], &["*"]),
        stack("left", &["base"], &["*"]),
        stack("right", &["base"], &["*"]),
        stack("base", &[], &["*"]),
    ];
    let sorted = load_stacks("h", files, false).unwrap();
    assert_eq!(names(&sorted), vec!["base", "left", "right", "top"]);
}

#[test]
fn repeated_dependency_declaration_is_harmless() {
    let files = vec![stack("app", &["db", "db"], &["*"]), stack("db", &[], &["*"])];
    let sorted = load_stacks("h", files, false).unwrap();
    assert_eq!(names(&sorted), vec!["db", "app"]);
}

#[test]
fn same_input_gives_same_order_twice() {
    let build = || {
        vec![
            stack("queue", &[], &["*"]),
            stack("api", &["queue", "db"], &["*"]),
            stack("db", &[], &["*"]),
            stack("worker", &["queue"], &["*"]),
            stack("cache", &[], &["*"]),
        ]
    };
    let first = names(&load_stacks("h", build(), false).unwrap());
    let second = names(&load_stacks("h", build(), false).unwrap());
    assert_eq!(first, second);
    assert_eq!(first, vec!["cache", "db", "queue", "api", "worker"]);
    let mut shuffled = build();
    shuffled.reverse();
    let third = names(&load_stacks("h", shuffled, false).unwrap());
    assert_eq!(first, third);
}

#[test]
fn every_dependency_precedes_its_dependent() {
    let files = vec![
        stack("m", &["z", "b"], &["*"]),
        stack("z", &["y"], &["*"]),
        stack("y", &[], &["*"]),
        stack("b", &["y"], &["*"]),
        stack("a", &["m"], &["*"]),
    ];
    let sorted = load_stacks("h", files, false).unwrap();
    let order = names(&sorted);
    assert_eq!(order, vec!["y", "b", "z", "m", "a"]);
    for (at, file) in sorted.iter().enumerate() {
        for dep in &file.deploy.depends_on {
            let found = order.iter().position(|n| n == dep).unwrap();
            assert!(found < at);
        }
    }
}

#[test]
fn two_stack_cycle_is_reported() {
    let files = vec![stack("A", &["B"], &["*"]), stack("B", &["A"], &["*"])];
    match load_stacks("h", files, false) {
        Err(LoadError::Cycle(error)) => assert!(error.name == "A" || error.name == "B"),
        other => panic!("expected a cycle, got {other:?}"),
    }
}

#[test]
fn self_dependency_is_a_cycle() {
    let files = vec![stack("solo", &["solo"], &["*"]), stack("other", &[], &["*"])];
    match load_stacks("h", files, false) {
        Err(LoadError::Cycle(error)) => assert_eq!(error.name, "solo"),
        other => panic!("expected a cycle, got {other:?}"),
    }
}

#[test]
fn cycle_is_named_by_a_stack_on_it_not_by_one_leading_to_it() {
    // a leads into the cycle x -> y -> z -> x but is not part of it.
    let files = vec![
        stack("a", &["x"], &["*"]),
        stack("x", &["y"], &["*"]),
        stack("y", &["z"], &["*"]),
        stack("z", &["x"], &["*"]),
        stack("free", &[], &["*"]),
    ];
    match load_stacks("h", files, false) {
        Err(LoadError::Cycle(error)) => {
            assert!(["x", "y", "z"].contains(&error.name.as_str()));
        }
        other => panic!("expected a cycle, got {other:?}"),
    }
}

#[test]
fn wildcard_is_accepted_on_every_host() {
    let file = stack("web", &[], &["*"]);
    assert!(file.deploy.applies("host-x"));
    assert!(file.deploy.applies("another"));
    assert!(file.deploy.applies(""));
}

#[test]
fn named_host_is_accepted_only_there() {
    let file = stack("web", &[], &["host-x"]);
    assert!(file.deploy.applies("host-x"));
    assert!(!file.deploy.applies("host-y"));
    assert!(!file.deploy.applies("HOST-X"));
    assert!(!file.deploy.applies("host-x2"));
    assert!(!file.deploy.applies("*"));
}

#[test]
fn host_among_several_tokens_is_accepted() {
    let file = stack("web", &[], &["alpha", "beta", "gamma"]);
    assert!(file.deploy.applies("beta"));
    assert!(file.deploy.applies("gamma"));
    assert!(!file.deploy.applies("delta"));
    let everywhere = stack("web", &[], &["alpha", "*"]);
    assert!(everywhere.deploy.applies("delta"));
}

#[test]
fn empty_runs_on_is_accepted_nowhere() {
    let file = stack("web", &[], &[]);
    assert!(!file.deploy.applies("host-x"));
    assert!(!file.deploy.applies("*"));
}

#[test]
fn filter_keeps_accepted_stacks_in_given_order() {
    let files = vec![
        stack("one", &[], &["host-x"]),
        stack("two", &[], &["host-y"]),
        stack("three", &[], &["*"]),
        stack("four", &[], &["host-y", "host-x"]),
    ];
    let kept = accept_for_host("host-x", files);
    assert_eq!(names(&kept), vec!["one", "three", "four"]);
}

#[test]
fn stacks_for_other_hosts_are_left_out() {
    let files = vec![
        stack("here", &[], &["host-x"]),
        stack("there", &[], &["host-y"]),
        stack("everywhere", &[], &["*"]),
    ];
    let sorted = load_stacks("host-x", files, false).unwrap();
    assert_eq!(names(&sorted), vec!["everywhere", "here"]);
}

#[test]
fn duplicate_name_on_this_host_is_an_error() {
    let files = vec![
        stack_at("one/stack-deploy.toml", "web", &[], &["*"]),
        stack_at("two/stack-deploy.toml", "web", &[], &["host-x"]),
    ];
    match load_stacks("host-x", files, false) {
        Err(LoadError::Build(BuildError::DuplicateName { name, first, second })) => {
            assert_eq!(name, "web");
            assert_eq!(first, PathBuf::from("one/stack-deploy.toml"));
            assert_eq!(second, PathBuf::from("two/stack-deploy.toml"));
        }
        other => panic!("expected a duplicate name, got {other:?}"),
    }
}

#[test]
fn duplicate_name_on_another_host_is_no_clash() {
    let files = vec![
        stack_at("one/stack-deploy.toml", "web", &[], &["host-x"]),
        stack_at("two/stack-deploy.toml", "web", &[], &["host-y"]),
    ];
    let sorted = load_stacks("host-x", files, false).unwrap();
    assert_eq!(names(&sorted), vec!["web"]);
    assert_eq!(sorted[0].path, PathBuf::from("one/stack-deploy.toml"));
}

#[test]
fn first_repeated_name_in_file_order_is_reported() {
    let files = vec![
        stack_at("1.toml", "b", &[], &["*"]),
        stack_at("2.toml", "a", &[], &["*"]),
        stack_at("3.toml", "b", &[], &["*"]),
        stack_at("4.toml", "a", &[], &["*"]),
    ];
    match load_stacks("h", files, false) {
        Err(LoadError::Build(BuildError::DuplicateName { name, first, second })) => {
            assert_eq!(name, "b");
            assert_eq!(first, PathBuf::from("1.toml"));
            assert_eq!(second, PathBuf::from("3.toml"));
        }
        other => panic!("expected a duplicate name, got {other:?}"),
    }
}

#[test]
fn duplicate_name_is_reported_before_missing_dependency() {
    let files = vec![
        stack("a", &["nowhere"], &["*"]),
        stack("web", &[], &["*"]),
        stack("web", &[], &["*"]),
    ];
    assert!(matches!(
        load_stacks("h", files, false),
        Err(LoadError::Build(BuildError::DuplicateName { .. }))
    ));
}

#[test]
fn missing_dependency_names_both_stacks() {
    let files = vec![stack("app", &["db"], &["*"])];
    match load_stacks("h", files, false) {
        Err(LoadError::Build(BuildError::MissingDependency {
            dependent,
            dependency,
            files_specified,
        })) => {
            assert_eq!(dependent, "app");
            assert_eq!(dependency, "db");
            assert!(!files_specified);
        }
        other => panic!("expected a missing dependency, got {other:?}"),
    }
}

#[test]
fn missing_dependency_remembers_explicit_file_list() {
    let files = vec![stack("app", &["db"], &["*"])];
    match load_stacks("h", files, true) {
        Err(LoadError::Build(BuildError::MissingDependency { files_specified, .. })) => {
            assert!(files_specified);
        }
        other => panic!("expected a missing dependency, got {other:?}"),
    }
}

#[test]
fn dependency_on_a_stack_of_another_host_is_missing() {
    let files = vec![stack("app", &["db"], &["host-x"]), stack("db", &[], &["host-y"])];
    match load_stacks("host-x", files, false) {
        Err(LoadError::Build(BuildError::MissingDependency { dependent, dependency, .. })) => {
            assert_eq!(dependent, "app");
            assert_eq!(dependency, "db");
        }
        other => panic!("expected a missing dependency, got {other:?}"),
    }
}

#[test]
fn first_missing_dependency_by_name_then_declaration_is_reported() {
    let files = vec![
        stack("zeta", &["gone-z"], &["*"]),
        stack("beta", &["alpha", "gone-1", "gone-2"], &["*"]),
        stack("alpha", &[], &["*"]),
    ];
    match load_stacks("h", files, false) {
        Err(LoadError::Build(BuildError::MissingDependency { dependent, dependency, .. })) => {
            assert_eq!(dependent, "beta");
            assert_eq!(dependency, "gone-1");
        }
        other => panic!("expected a missing dependency, got {other:?}"),
    }
}

#[test]
fn missing_dependency_is_reported_before_cycle() {
    let files = vec![
        stack("a", &["b"], &["*"]),
        stack("b", &["a"], &["*"]),
        stack("c", &["gone"], &["*"]),
    ];
    assert!(matches!(
        load_stacks("h", files, false),
        Err(LoadError::Build(BuildError::MissingDependency { .. }))
    ));
}

#[test]
fn dependency_names_are_case_sensitive() {
    let files = vec![stack("app", &["DB"], &["*"]), stack("db", &[], &["*"])];
    assert!(matches!(
        load_stacks("h", files, false),
        Err(LoadError::Build(BuildError::MissingDependency { .. }))
    ));
}

#[test]
fn no_manifests_give_empty_order() {
    let sorted = load_stacks("h", Vec::new(), false).unwrap();
    assert!(sorted.is_empty());
    let none = load_stacks("h", vec![stack("x", &[], &["elsewhere"])], false).unwrap();
    assert!(none.is_empty());
}

#[test]
fn teardown_is_exact_reverse_of_launch() {
    let files = vec![
        stack("d", &["b", "c"], &["*"]),
        stack("c", &["a"], &["*"]),
        stack("b", &["a"], &["*"]),
        stack("a", &[], &["*"]),
        stack("e", &[], &["*"]),
    ];
    let sorted = load_stacks("h", files, false).unwrap();
    let launch = names(&sorted);
    assert_eq!(launch, vec!["a", "b", "c", "d", "e"]);
    let stop = names(&teardown_order(sorted));
    let mut expected = launch.clone();
    expected.reverse();
    assert_eq!(stop, expected);
    assert_eq!(stop, vec!["e", "d", "c", "b", "a"]);
}

#[test]
fn duplicate_name_is_worded_with_the_name() {
    let files = vec![stack("web", &[], &["*"]), stack("web", &[], &["*"])];
    let error = load_stacks("h", files, false).unwrap_err();
    assert_eq!(error.message(), "multiple stacks have the same name web");
}

#[test]
fn missing_dependency_is_worded_by_where_it_was_looked_for() {
    let scanned = load_stacks("h", vec![stack("app", &["db"], &["*"])], false).unwrap_err();
    assert_eq!(
        scanned.message(),
        "app depends on db, but db is not present in any stack deploy file"
    );
    let listed = load_stacks("h", vec![stack("app", &["db"], &["*"])], true).unwrap_err();
    assert_eq!(
        listed.message(),
        "app depends on db, but db is not present in any of the specified stack deploy files"
    );
}

#[test]
fn cycle_is_worded_with_a_stack_on_it() {
    let error = load_stacks("h", vec![stack("solo", &["solo"], &["*"])], false).unwrap_err();
    assert_eq!(error.message(), "Dependency cycle detected for solo");
}
