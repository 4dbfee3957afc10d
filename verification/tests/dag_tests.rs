use local_ci::dag::{Dag, DagError, GraphNode};
use local_ci::graph::{find_cycle, find_roots, mirror};

#[derive(Debug, PartialEq, Eq, Clone)]
struct TestGraphNode {
    id: usize,
    child_ids: Vec<usize>,
}

impl GraphNode<usize> for TestGraphNode {
    fn id(&self) -> usize {
        self.id
    }

    fn child_ids(&self) -> Vec<usize> {
        self.child_ids.clone()
    }

    fn has_id(&self, id: &usize) -> bool {
        self.id == *id
    }
}

fn nodes(edges: Vec<Vec<usize>>) -> Vec<TestGraphNode> {
    let mut out = Vec::new();
    for (id, child_ids) in edges.into_iter().enumerate() {
        out.push(TestGraphNode { id, child_ids });
    }
    out
}

fn tree() -> Vec<Vec<usize>> {
    vec![vec![1], vec![2, 3], vec![], vec![]]
}

fn trees() -> Vec<Vec<usize>> {
    vec![vec![1], vec![2, 3], vec![], vec![], vec![5], vec![6, 7], vec![], vec![]]
}

fn error_of(edges: Vec<Vec<usize>>) -> Option<DagError<usize>> {
    Dag::new(nodes(edges)).err()
}

fn bottom_up_ids(dag: &Dag<usize, TestGraphNode>) -> Vec<usize> {
    let mut order = Vec::new();
    let mut it = dag.bottom_up();
    while let Some(node) = it.next() {
        order.push(node.id);
    }
    order
}

fn top_down_ids(edges: Vec<Vec<usize>>, from: usize) -> Vec<usize> {
    let dag = Dag::new(nodes(edges)).unwrap();
    let mut order = Vec::new();
    let mut it = dag.top_down_from(&from).unwrap();
    while let Some(node) = it.next() {
        order.push(node.id);
    }
    order
}

fn check_bottom_up(edges: Vec<Vec<usize>>) {
    let n = edges.len();
    let dag = Dag::new(nodes(edges.clone())).unwrap();
    let order = bottom_up_ids(&dag);
    let mut sorted = order.clone();
    sorted.sort();
    let all: Vec<usize> = (0..n).collect();
    assert_eq!(sorted, all, "Not all nodes visited");
    let mut seen: Vec<usize> = Vec::new();
    for id in order {
        for child in &edges[id] {
            assert!(seen.contains(child), "Parent visited before child");
        }
        seen.push(id);
    }
}

#[test]
fn test_graph_validity_empty() {
    assert_eq!(error_of(vec![]), None);
}

#[test]
fn test_graph_validity_one_edge() {
    assert_eq!(error_of(vec![vec![1], vec![]]), None);
}

#[test]
fn test_graph_validity_tree() {
    assert_eq!(error_of(tree()), None);
}

#[test]
fn test_graph_validity_trees() {
    assert_eq!(error_of(trees()), None);
}

#[test]
fn test_graph_validity_self_link() {
    assert_eq!(error_of(vec![vec![0]]), Some(DagError::Cycle(0)));
}

#[test]
fn test_graph_validity_a_loop() {
    assert_eq!(
        error_of(vec![vec![1], vec![2], vec![3], vec![0]]),
        Some(DagError::Cycle(0))
    );
}

#[test]
fn test_graph_validity_no_child() {
    assert_eq!(
        error_of(vec![vec![1]]),
        Some(DagError::NoSuchChild { parent: 0, child: 1 })
    );
}

#[test]
fn test_graph_validity_duplicate_id() {
    let twice = vec![
        TestGraphNode { id: 7, child_ids: vec![] },
        TestGraphNode { id: 8, child_ids: vec![] },
        TestGraphNode { id: 7, child_ids: vec![] },
    ];
    assert_eq!(Dag::new(twice).err(), Some(DagError::DuplicateId(7)));
}

#[test]
fn test_graph_validity_duplicate_before_missing_child() {
    let both = vec![
        TestGraphNode { id: 1, child_ids: vec![9] },
        TestGraphNode { id: 1, child_ids: vec![] },
    ];
    assert_eq!(Dag::new(both).err(), Some(DagError::DuplicateId(1)));
}

#[test]
fn test_graph_validity_missing_child_before_cycle() {
    assert_eq!(
        error_of(vec![vec![1], vec![0, 5]]),
        Some(DagError::NoSuchChild { parent: 1, child: 5 })
    );
}

#[test]
fn test_bottom_up_empty() {
    check_bottom_up(vec![]);
}

#[test]
fn test_bottom_up_one_edge() {
    check_bottom_up(vec![vec![1], vec![]]);
}

#[test]
fn test_bottom_up_tree() {
    check_bottom_up(tree());
}

#[test]
fn test_bottom_up_trees() {
    check_bottom_up(trees());
}

#[test]
fn test_bottom_up_shared_child_once() {
    let diamond = vec![vec![1, 2], vec![3], vec![3], vec![]];
    check_bottom_up(diamond.clone());
    let dag = Dag::new(nodes(diamond)).unwrap();
    assert_eq!(bottom_up_ids(&dag), vec![3, 1, 2, 0]);
}

#[test]
fn test_bottom_up_exact_order_of_trees() {
    let dag = Dag::new(nodes(trees())).unwrap();
    assert_eq!(bottom_up_ids(&dag), vec![2, 3, 1, 0, 6, 7, 5, 4]);
}

#[test]
fn test_top_down_one_edge() {
    assert_eq!(top_down_ids(vec![vec![1], vec![]], 0), vec![0, 1]);
}

#[test]
fn test_top_down_tree() {
    assert_eq!(top_down_ids(tree(), 0), vec![0, 1, 2, 3]);
}

#[test]
fn test_top_down_tree_non_root() {
    assert_eq!(top_down_ids(tree(), 1), vec![1, 2, 3]);
}

#[test]
fn test_top_down_trees_1() {
    assert_eq!(top_down_ids(trees(), 0), vec![0, 1, 2, 3]);
}

#[test]
fn test_top_down_trees_2() {
    assert_eq!(top_down_ids(trees(), 4), vec![4, 5, 6, 7]);
}

#[test]
fn test_top_down_shared_child_after_both_parents() {
    let order = top_down_ids(vec![vec![1, 2], vec![2], vec![]], 0);
    assert_eq!(order, vec![0, 1, 2]);
}

#[test]
fn test_top_down_unknown_id() {
    let dag = Dag::new(nodes(tree())).unwrap();
    assert!(dag.top_down_from(&9).is_none());
}

#[test]
fn test_node_lookup() {
    let dag = Dag::new(nodes(tree())).unwrap();
    assert_eq!(dag.node(&1).map(|n| n.child_ids.clone()), Some(vec![2, 3]));
    assert!(dag.node(&4).is_none());
    assert_eq!(dag.len(), 4);
    assert_eq!(dag.nodes().len(), 4);
}

#[test]
fn test_empty_dag() {
    let dag: Dag<usize, TestGraphNode> = Dag::empty();
    assert_eq!(dag.len(), 0);
    assert_eq!(bottom_up_ids(&dag), Vec::<usize>::new());
}

#[test]
fn test_with_node_appends_and_updates_roots() {
    let dag = Dag::new(nodes(vec![vec![], vec![]])).unwrap();
    let dag = dag
        .with_node(TestGraphNode { id: 2, child_ids: vec![0] })
        .unwrap();
    assert_eq!(dag.len(), 3);
    assert_eq!(bottom_up_ids(&dag), vec![1, 0, 2]);
}

#[test]
fn test_with_node_errors() {
    let start = || Dag::new(nodes(vec![vec![], vec![]])).unwrap();
    assert_eq!(
        start().with_node(TestGraphNode { id: 1, child_ids: vec![] }).err(),
        Some(DagError::DuplicateId(1))
    );
    assert_eq!(
        start().with_node(TestGraphNode { id: 2, child_ids: vec![0, 5] }).err(),
        Some(DagError::NoSuchChild { parent: 2, child: 5 })
    );
    assert_eq!(
        start().with_node(TestGraphNode { id: 2, child_ids: vec![2] }).err(),
        Some(DagError::Cycle(2))
    );
    assert_eq!(
        start().with_node(TestGraphNode { id: 2, child_ids: vec![2, 5] }).err(),
        Some(DagError::NoSuchChild { parent: 2, child: 5 })
    );
}

#[test]
fn test_with_node_agrees_with_new() {
    let mut all = nodes(vec![vec![], vec![0]]);
    let added = TestGraphNode { id: 2, child_ids: vec![1, 0] };
    let grown = Dag::new(all.clone()).unwrap().with_node(added.clone()).unwrap();
    all.push(added);
    let built = Dag::new(all).unwrap();
    assert_eq!(grown.nodes(), built.nodes());
    assert_eq!(bottom_up_ids(&grown), bottom_up_ids(&built));
}

#[test]
fn test_rebuild_from_reversed_bottom_up() {
    let edges = vec![vec![1, 2], vec![3], vec![3], vec![], vec![0]];
    let dag = Dag::new(nodes(edges.clone())).unwrap();
    let mut reversed: Vec<TestGraphNode> = Vec::new();
    let mut it = dag.bottom_up();
    while let Some(node) = it.next() {
        reversed.insert(0, node.clone());
    }
    let rebuilt = Dag::new(reversed).unwrap();
    assert_eq!(rebuilt.len(), dag.len());
    for id in 0..edges.len() {
        assert_eq!(rebuilt.node(&id), dag.node(&id));
    }
    let mut again = bottom_up_ids(&rebuilt);
    again.sort();
    assert_eq!(again, vec![0, 1, 2, 3, 4]);
}

#[test]
fn test_dag_error_message() {
    let dup: DagError<String> = DagError::DuplicateId("a".to_string());
    assert_eq!(dup.message(), "duplicate key \"a\"");
    let missing: DagError<String> = DagError::NoSuchChild {
        parent: "a".to_string(),
        child: "b".to_string(),
    };
    assert_eq!(missing.message(), "\"a\" refers to nonexistent \"b\"");
    let cycle: DagError<String> = DagError::Cycle("c".to_string());
    assert_eq!(cycle.message(), "cycle in graph, containing \"c\"");
}

#[test]
fn test_top_down_siblings_in_declaration_order() {
    let edges = vec![vec![3, 1, 2], vec![], vec![4], vec![4], vec![]];
    assert_eq!(top_down_ids(edges, 0), vec![0, 3, 1, 2, 4]);
}

#[test]
fn test_cycle_is_named_by_the_node_that_closes_it() {
    assert_eq!(error_of(vec![vec![1], vec![2], vec![1]]), Some(DagError::Cycle(1)));
    assert_eq!(error_of(vec![vec![], vec![2], vec![3], vec![2]]), Some(DagError::Cycle(2)));
    assert_eq!(error_of(vec![vec![1, 2], vec![], vec![2]]), Some(DagError::Cycle(2)));
    assert_eq!(
        error_of(vec![vec![2, 1], vec![0], vec![3], vec![2]]),
        Some(DagError::Cycle(2))
    );
}

#[test]
fn test_find_cycle_and_roots_on_indices() {
    assert_eq!(find_cycle(&vec![vec![1], vec![2, 3], vec![], vec![]]), None);
    assert_eq!(find_cycle(&vec![vec![1], vec![2], vec![3], vec![0]]), Some(0));
    assert_eq!(find_cycle(&vec![vec![1], vec![2], vec![1]]), Some(1));
    assert_eq!(find_cycle(&vec![]), None);
    assert_eq!(find_roots(&vec![vec![1], vec![2, 3], vec![], vec![]]), vec![0]);
    assert_eq!(find_roots(&vec![vec![], vec![0], vec![0], vec![]]), vec![1, 2, 3]);
    assert_eq!(find_roots(&vec![]), Vec::<usize>::new());
    assert_eq!(
        mirror(&vec![vec![1, 2, 3], vec![], vec![0, 1]]),
        vec![vec![3, 2, 1], vec![], vec![1, 0]]
    );
}
