use petgraph::algo::{is_cyclic_directed, tarjan_scc, toposort};
use petgraph::prelude::DiGraphMap;
use stack_deploy::deploy_file::{load_stacks, DeployFile, LoadError, StackDeploy};
use std::path::PathBuf;

/// A graph given as the dependencies of each node, by number.
fn files_of(deps: &[Vec<usize>]) -> Vec<DeployFile> {
    deps.iter()
        .enumerate()
        .map(|(i, wanted)| DeployFile {
            path: PathBuf::from(format!("s{i}/stack-deploy.toml")),
            deploy: StackDeploy {
                name: format!("s{i}"),
                depends_on: wanted.iter().map(|d| format!("s{d}")).collect(),
                secret_env: Vec::new(),
                runs_on: vec!["*".to_string()],
            },
        })
        .collect()
}

fn graph_of(deps: &[Vec<usize>]) -> DiGraphMap<usize, ()> {
    let mut graph = DiGraphMap::new();
    for i in 0..deps.len() {
        graph.add_node(i);
    }
    for (i, wanted) in deps.iter().enumerate() {
        for d in wanted {
            graph.add_edge(i, *d, ());
        }
    }
    graph
}

fn number_of(name: &str) -> usize {
    name[1..].parse().unwrap()
}

/// The launch order worked out the plain way: again and again take, among
/// the stacks whose dependencies have all started, the one with the least name.
fn plain_order(deps: &[Vec<usize>]) -> Option<Vec<String>>
{
    let mut order: Vec<String> = Vec::new();
    let mut started = vec![false; deps.len()];
    while order.len() < deps.len() {
        let next = (0..deps.len())
            .filter(|i| !started[*i] && deps[*i].iter().all(|d| started[*d]))
            .min_by_key(|i| format!("s{i}"))?;
        started[next] = true;
        order.push(format!("s{next}"));
    }
    Some(order)
}

fn compare_on(deps: &[Vec<usize>]) {
    let graph = graph_of(deps);
    let theirs = toposort(&graph, None);
    let ours = load_stacks("anywhere", files_of(deps), false);
    assert_eq!(ours.is_ok(), theirs.is_ok(), "on {deps:?}");
    assert_eq!(ours.is_err(), is_cyclic_directed(&graph), "on {deps:?}");
    match ours {
        Ok(sorted) => {
            let order: Vec<String> = sorted.iter().map(|f| f.deploy.name.clone()).collect();
            assert_eq!(Some(order.clone()), plain_order(deps), "on {deps:?}");
            assert_eq!(order.len(), graph.node_count());
            let mut place = vec![usize::MAX; deps.len()];
            for (at, name) in order.iter().enumerate() {
                assert_eq!(place[number_of(name)], usize::MAX, "{name} twice on {deps:?}");
                place[number_of(name)] = at;
            }
            for (dependent, dependency, _) in graph.all_edges() {
                assert!(place[dependency] < place[dependent], "on {deps:?}");
            }
        }
        Err(LoadError::Cycle(error)) => {
            assert_eq!(plain_order(deps), None);
            let node = number_of(&error.name);
            let component = tarjan_scc(&graph)
                .into_iter()
                .find(|component| component.contains(&node))
                .unwrap();
            assert!(component.len() > 1 || graph.contains_edge(node, node), "on {deps:?}");
        }
        Err(other) => panic!("unexpected {other:?} on {deps:?}"),
    }
}

#[test]
fn agrees_with_petgraph_on_hand_made_graphs() {
    compare_on(&[]);
    compare_on(&[vec![]]);
    compare_on(&[vec![0]]);
    compare_on(&[vec![1], vec![0]]);
    compare_on(&[vec![], vec![0], vec![1]]);
    compare_on(&[vec![1], vec![2], vec![]]);
    compare_on(&[vec![2], vec![], vec![], vec![]]);
    compare_on(&[vec![1, 2], vec![3], vec![3], vec![]]);
    compare_on(&[vec![1], vec![2], vec![3], vec![1], vec![]]);
    compare_on(&[vec![], vec![2], vec![1], vec![0]]);
    compare_on(&[vec![1, 1, 1], vec![]]);
    // eleven nodes, so that "s10" comes before "s2"
    compare_on(&[
        vec![10],
        vec![],
        vec![10],
        vec![2],
        vec![],
        vec![4, 3],
        vec![],
        vec![6],
        vec![],
        vec![8, 1],
        vec![],
    ]);
}

#[test]
fn agrees_with_petgraph_on_generated_graphs() {
    let mut state: u64 = 0x2545_f491_4f6c_dd1d;
    let mut draw = move |below: u64| {
        state = state.wrapping_mul(6364136223846793005).wrapping_add(1442695040888963407);
        (state >> 33) % below
    };
    let mut with_cycle = 0;
    let mut without = 0;
    for round in 0..400 {
        let nodes = 1 + draw(12) as usize;
        let edges = draw(2 * nodes as u64 + 1) as usize;
        let mut deps: Vec<Vec<usize>> = vec![Vec::new(); nodes];
        for _ in 0..edges {
            let from = draw(nodes as u64) as usize;
            let to = draw(nodes as u64) as usize;
            // Every other round only lets later nodes depend on earlier ones,
            // so that plenty of graphs are free of cycles.
            if round % 2 == 0 || to < from {
                deps[from].push(to);
            }
        }
        if is_cyclic_directed(&graph_of(&deps)) {
            with_cycle += 1;
        } else {
            without += 1;
        }
        compare_on(&deps);
    }
    assert!(with_cycle > 50, "only {with_cycle} graphs with a cycle");
    assert!(without > 50, "only {without} graphs without a cycle");
}
