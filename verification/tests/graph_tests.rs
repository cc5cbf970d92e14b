use lib::graph::{Graph, Node};
use lib::parser::{Predicate, Rule};

fn dummy_rules(n: usize) -> Vec<Rule> {
    (0..n)
        .map(|i| Rule {
            head_predicate: Predicate { name: format!("h{}", i), parameters: vec![] },
            body_predicates: vec![],
        })
        .collect()
}

fn sorted_components(c: Vec<Vec<u32>>) -> Vec<Vec<u32>> {
    let mut out: Vec<Vec<u32>> = c
        .into_iter()
        .map(|mut v| {
            v.sort();
            v
        })
        .collect();
    out.sort();
    out
}

#[test]
fn new_node_has_no_edges() {
    assert_eq!(Node::new().to_string(), "");
}

#[test]
fn new_graph_lists_every_rule() {
    let g = Graph::new(dummy_rules(3));
    assert_eq!(g.to_lines(), vec!["R0:", "R1:", "R2:"]);
}

#[test]
fn edges_are_listed_in_order_once() {
    let mut g = Graph::new(dummy_rules(3));
    g.add_edge(1, 2);
    g.add_edge(1, 0);
    g.add_edge(1, 2);
    g.add_edge(0, 1);
    assert_eq!(g.to_lines(), vec!["R0:R1", "R1:R0,R2", "R2:"]);
}

#[test]
fn adding_an_edge_from_a_new_node_adds_the_node() {
    let mut g = Graph::new(dummy_rules(1));
    g.add_edge(12, 0);
    assert_eq!(g.to_lines(), vec!["R0:", "R12:R0"]);
}

#[test]
fn dependent_means_a_self_loop() {
    let mut g = Graph::new(dummy_rules(3));
    g.add_edge(0, 1);
    g.add_edge(2, 2);
    assert!(!g.dependent(0));
    assert!(!g.dependent(1));
    assert!(g.dependent(2));
}

#[test]
fn forest_finishes_nodes_in_postorder() {
    let mut reverse = Graph::new(dummy_rules(3));
    reverse.add_edge(1, 0);
    reverse.add_edge(0, 1);
    reverse.add_edge(2, 1);
    assert_eq!(reverse.dfs_forest(), vec![1, 0, 2]);
}

#[test]
fn components_of_a_cycle_and_a_tail() {
    let mut g = Graph::new(dummy_rules(3));
    g.add_edge(0, 1);
    g.add_edge(1, 0);
    g.add_edge(1, 2);
    let mut reverse = Graph::new(dummy_rules(3));
    reverse.add_edge(1, 0);
    reverse.add_edge(0, 1);
    reverse.add_edge(2, 1);
    let order = reverse.dfs_forest();
    let comps = g.dfs_forest_og(order);
    assert_eq!(comps.len(), 2);
    assert_eq!(comps[0], vec![2]);
    assert_eq!(sorted_components(comps), vec![vec![0, 1], vec![2]]);
}

#[test]
fn components_of_a_chain_come_dependencies_first() {
    let mut g = Graph::new(dummy_rules(3));
    g.add_edge(0, 1);
    g.add_edge(1, 2);
    let mut reverse = Graph::new(dummy_rules(3));
    reverse.add_edge(1, 0);
    reverse.add_edge(2, 1);
    let order = reverse.dfs_forest();
    let comps = g.dfs_forest_og(order);
    assert_eq!(comps, vec![vec![2], vec![1], vec![0]]);
}

#[test]
fn finished_nodes_accumulate_over_searches() {
    let mut g = Graph::new(dummy_rules(4));
    g.add_edge(0, 1);
    g.add_edge(1, 2);
    g.dfs(0);
    g.dfs(3);
    assert_eq!(g.dfs_forest(), vec![2, 1, 0, 3, 2, 1, 0, 3]);
}
