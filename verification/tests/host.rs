use stack_deploy::deploy_file::{load_stacks, DeployFile, StackDeploy};
use stack_deploy::host::{host_id_from, local_host_id};
use std::path::PathBuf;

#[test]
fn reported_host_name_is_used_as_is() {
    assert_eq!(host_id_from(Some("host-x".to_string())), "host-x");
    assert_eq!(host_id_from(Some(String::new())), "");
}

#[test]
fn unreadable_host_name_falls_back_to_localhost() {
    assert_eq!(host_id_from(None), "localhost");
}

#[test]
fn local_host_runs_the_stacks_that_name_it() {
    let host = local_host_id();
    let mine = DeployFile {
        path: PathBuf::from("mine.toml"),
        deploy: StackDeploy {
            name: "mine".to_string(),
            depends_on: Vec::new(),
            secret_env: Vec::new(),
            runs_on: vec![host.clone()],
        },
    };
    let sorted = load_stacks(&host, vec![mine], false).unwrap();
    assert_eq!(sorted.len(), 1);
    assert_eq!(sorted[0].deploy.name, "mine");
}
