use stack_deploy::deploy_file::{DeployFile, StackDeploy};
use stack_deploy::secrets::{plan_deploy, Entry, Field, Group, KeePassDB, Node};
use std::path::PathBuf;

fn field(name: &str, value: &str) -> Field {
    Field { name: name.to_string(), value: Some(value.to_string()) }
}

fn entry(title: &str, fields: Vec<Field>) -> Node {
    Node::Entry(Entry { title: Some(title.to_string()), fields })
}

fn group(name: &str, children: Vec<Node>) -> Group {
    Group { name: name.to_string(), children }
}

fn vault() -> KeePassDB {
    KeePassDB::new(group(
        "Vault",
        vec![Node::Group(group("svc", vec![entry("creds", vec![field("token", "abc123")])]))],
    ))
}

fn wide_vault() -> KeePassDB {
    KeePassDB::new(group(
        "Vault",
        vec![
            entry("top", vec![field("Title", "top"), field("Password", "root-pw")]),
            Node::Group(group("empty", vec![])),
            Node::Group(group(
                "svc",
                vec![
                    entry("creds", vec![field("UserName", "first"), field("token", "t-1")]),
                    Node::Group(group(
                        "db",
                        vec![entry("admin", vec![field("Password", "db-pw"), field("port", "5432")])],
                    )),
                ],
            )),
            Node::Group(group(
                "SVC",
                vec![entry("creds", vec![field("token", "t-2"), field("extra", "only-here")])],
            )),
        ],
    ))
}

fn stack_with_secrets(name: &str, secret_env: &[(&str, &str)]) -> DeployFile {
    DeployFile {
        path: PathBuf::from(format!("{name}/stack-deploy.toml")),
        deploy: StackDeploy {
            name: name.to_string(),
            depends_on: Vec::new(),
            secret_env: secret_env.iter().map(|(k, v)| (k.to_string(), v.to_string())).collect(),
            runs_on: vec!["*".to_string()],
        },
    }
}

#[test]
fn path_resolves_to_field_value() {
    assert_eq!(vault().resolve_value("Vault/svc/creds/token"), Some("abc123".to_string()));
}

#[test]
fn path_is_case_insensitive_at_every_level() {
    assert_eq!(vault().resolve_value("vault/SVC/Creds/TOKEN"), Some("abc123".to_string()));
    assert_eq!(vault().resolve_value("VAULT/svc/CREDS/token"), Some("abc123".to_string()));
}

#[test]
fn path_that_stops_at_the_entry_is_too_short() {
    assert_eq!(vault().resolve_value("Vault/svc/creds"), None);
}

#[test]
fn path_that_goes_past_the_field_is_too_long() {
    assert_eq!(vault().resolve_value("Vault/svc/creds/token/extra"), None);
}

#[test]
fn path_that_ends_inside_a_group_resolves_to_nothing() {
    assert_eq!(vault().resolve_value("Vault"), None);
    assert_eq!(vault().resolve_value("Vault/svc"), None);
}

#[test]
fn empty_and_malformed_paths_resolve_to_nothing() {
    assert_eq!(vault().resolve_value(""), None);
    assert_eq!(vault().resolve_value("/"), None);
    assert_eq!(vault().resolve_value("/Vault/svc/creds/token"), None);
    assert_eq!(vault().resolve_value("Vault//svc/creds/token"), None);
    assert_eq!(vault().resolve_value("Vault/svc/creds/token/"), None);
    assert_eq!(vault().resolve_value("Vault/svc/creds/"), None);
}

#[test]
fn wrong_name_at_any_level_resolves_to_nothing() {
    assert_eq!(vault().resolve_value("Other/svc/creds/token"), None);
    assert_eq!(vault().resolve_value("Vault/other/creds/token"), None);
    assert_eq!(vault().resolve_value("Vault/svc/other/token"), None);
    assert_eq!(vault().resolve_value("Vault/svc/creds/other"), None);
    assert_eq!(vault().resolve_value("Vault/svc/creds/toke"), None);
    assert_eq!(vault().resolve_value("Vault/svc/creds/tokens"), None);
}

#[test]
fn root_group_has_to_be_named() {
    assert_eq!(vault().resolve_value("svc/creds/token"), None);
}

#[test]
fn entry_directly_under_root_resolves() {
    assert_eq!(wide_vault().resolve_value("Vault/top/Password"), Some("root-pw".to_string()));
    assert_eq!(wide_vault().resolve_value("vault/TOP/password"), Some("root-pw".to_string()));
    assert_eq!(wide_vault().resolve_value("vault/top/title"), Some("top".to_string()));
}

#[test]
fn nested_groups_are_followed() {
    assert_eq!(wide_vault().resolve_value("Vault/svc/db/admin/port"), Some("5432".to_string()));
    assert_eq!(wide_vault().resolve_value("Vault/svc/db/admin/PASSWORD"), Some("db-pw".to_string()));
    assert_eq!(wide_vault().resolve_value("Vault/db/admin/port"), None);
}

#[test]
fn first_matching_child_that_resolves_decides() {
    // Two groups answer to "svc": the first one holds creds/token.
    assert_eq!(wide_vault().resolve_value("Vault/svc/creds/token"), Some("t-1".to_string()));
    // Only the second one holds creds/extra, so the search moves on to it.
    assert_eq!(wide_vault().resolve_value("Vault/svc/creds/extra"), Some("only-here".to_string()));
    assert_eq!(wide_vault().resolve_value("Vault/empty/creds/token"), None);
}

#[test]
fn only_ascii_letters_are_folded() {
    let db = KeePassDB::new(group(
        "Tresor",
        vec![entry("Zugang-Ä", vec![field("schlüssel", "geheim"), field("a_b", "under")])],
    ));
    assert_eq!(db.resolve_value("tresor/zugang-Ä/SCHLüSSEL"), Some("geheim".to_string()));
    assert_eq!(db.resolve_value("tresor/zugang-ä/schlüssel"), None);
    assert_eq!(db.resolve_value("tresor/zugang-Ä/schlÜssel"), None);
    assert_eq!(db.resolve_value("tresor/zugang-Ä/A_B"), Some("under".to_string()));
    // '_' and '?' sit 32 apart from nothing that folds; '@' and '`' must stay apart too.
    assert_eq!(db.resolve_value("tresor/zugang-Ä/a?b"), None);
}

#[test]
fn characters_next_to_the_alphabet_do_not_fold() {
    let db = KeePassDB::new(group("g", vec![entry("e", vec![field("@[", "x"), field("Zz", "y")])]));
    assert_eq!(db.resolve_value("g/e/@["), Some("x".to_string()));
    assert_eq!(db.resolve_value("g/e/`{"), None);
    assert_eq!(db.resolve_value("g/e/zZ"), Some("y".to_string()));
    assert_eq!(db.resolve_value("G/E/ZZ"), Some("y".to_string()));
}

#[test]
fn entry_without_title_never_matches() {
    let db = KeePassDB::new(group(
        "Vault",
        vec![
            Node::Entry(Entry { title: None, fields: vec![field("token", "untitled")] }),
            entry("", vec![field("token", "empty-title")]),
        ],
    ));
    assert_eq!(db.resolve_value("Vault//token"), Some("empty-title".to_string()));
    assert_eq!(db.resolve_value("Vault/token"), None);
}

#[test]
fn field_without_text_resolves_to_nothing() {
    let db = KeePassDB::new(group(
        "Vault",
        vec![
            entry(
                "creds",
                vec![
                    Field { name: "blob".to_string(), value: None },
                    field("BLOB", "shadowed"),
                    field("token", "t"),
                ],
            ),
            entry("creds", vec![field("blob", "second-entry")]),
        ],
    ));
    // The first field that answers to the name decides within an entry,
    // and the search then moves on to the next child.
    assert_eq!(db.resolve_value("Vault/creds/blob"), Some("second-entry".to_string()));
    assert_eq!(db.resolve_value("Vault/creds/token"), Some("t".to_string()));
}

#[test]
fn first_field_of_an_entry_that_matches_is_returned() {
    let db = KeePassDB::new(group(
        "Vault",
        vec![entry("creds", vec![field("Token", "upper"), field("token", "lower")])],
    ));
    assert_eq!(db.resolve_value("Vault/creds/token"), Some("upper".to_string()));
    assert_eq!(db.resolve_value("Vault/creds/TOKEN"), Some("upper".to_string()));
}

#[test]
fn root_accessor_returns_the_tree() {
    let db = vault();
    assert_eq!(db.root().name, "Vault");
    assert_eq!(db.root().children.len(), 1);
}

#[test]
fn all_secrets_found_gives_environment_in_declared_order() {
    let file = stack_with_secrets(
        "web",
        &[("TOKEN", "vault/svc/creds/token"), ("DB_PORT", "Vault/svc/db/admin/port")],
    );
    let env = wide_vault().resolve_env(&file.deploy).unwrap();
    assert_eq!(
        env,
        vec![("TOKEN".to_string(), "t-1".to_string()), ("DB_PORT".to_string(), "5432".to_string())]
    );
}

#[test]
fn stack_without_secrets_gets_empty_environment() {
    let file = stack_with_secrets("web", &[]);
    assert_eq!(wide_vault().resolve_env(&file.deploy).unwrap(), Vec::new());
}

#[test]
fn every_missing_secret_is_listed() {
    let file = stack_with_secrets(
        "web",
        &[
            ("A", "Vault/svc/creds/nope"),
            ("TOKEN", "Vault/svc/creds/token"),
            ("B", "Vault/svc/creds"),
            ("C", "Vault/gone/creds/token"),
        ],
    );
    let misses = wide_vault().resolve_env(&file.deploy).unwrap_err();
    let listed: Vec<(String, String)> =
        misses.into_iter().map(|miss| (miss.variable, miss.path)).collect();
    assert_eq!(
        listed,
        vec![
            ("A".to_string(), "Vault/svc/creds/nope".to_string()),
            ("B".to_string(), "Vault/svc/creds".to_string()),
            ("C".to_string(), "Vault/gone/creds/token".to_string()),
        ]
    );
}

#[test]
fn missing_secret_blocks_only_its_own_stack() {
    let sorted = vec![
        stack_with_secrets("a", &[("TOKEN", "Vault/svc/creds/token")]),
        stack_with_secrets("b", &[("GONE", "Vault/svc/creds/gone")]),
        stack_with_secrets("c", &[]),
        stack_with_secrets("d", &[("PW", "Vault/top/password")]),
    ];
    let plans = plan_deploy(&wide_vault(), &sorted);
    assert_eq!(plans.len(), 4);
    assert_eq!(plans[0].as_ref().unwrap(), &vec![("TOKEN".to_string(), "t-1".to_string())]);
    let misses = plans[1].as_ref().unwrap_err();
    assert_eq!(misses.len(), 1);
    assert_eq!(misses[0].variable, "GONE");
    assert_eq!(misses[0].path, "Vault/svc/creds/gone");
    assert!(plans[2].as_ref().unwrap().is_empty());
    assert_eq!(plans[3].as_ref().unwrap(), &vec![("PW".to_string(), "root-pw".to_string())]);
}

#[test]
fn secret_env_with_repeated_variable_is_no_mapping() {
    let proper = stack_with_secrets("web", &[("A", "p/1"), ("B", "p/1"), ("C", "p/2")]);
    assert!(proper.deploy.secret_env_keys_unique());
    let empty = stack_with_secrets("web", &[]);
    assert!(empty.deploy.secret_env_keys_unique());
    let repeated = stack_with_secrets("web", &[("A", "p/1"), ("B", "p/2"), ("A", "p/3")]);
    assert!(!repeated.deploy.secret_env_keys_unique());
    let adjacent = stack_with_secrets("web", &[("A", "p/1"), ("A", "p/1")]);
    assert!(!adjacent.deploy.secret_env_keys_unique());
    let cased = stack_with_secrets("web", &[("A", "p/1"), ("a", "p/1")]);
    assert!(cased.deploy.secret_env_keys_unique());
}
