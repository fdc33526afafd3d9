use hypergraph::basis::SparseBasis;
use hypergraph::graph::{SparseGraph, SparseVector};
use hypergraph::traversal::{bfs_base, compute_cut, compute_probabilistic_walk_graph, dfs_base, walk, HgPath};

fn basis(nodes: &[u32]) -> SparseBasis {
    SparseBasis::from_nodes(&nodes.to_vec())
}

fn vector(entries: &[(&[u32], u64)]) -> SparseVector {
    SparseVector { entries: entries.iter().map(|(b, w)| (basis(b), *w)).collect() }
}

fn sample_graph() -> SparseGraph {
    let nodes: Vec<u32> = (0..10).collect();
    let start = [nodes[0], nodes[1]];
    let b1 = [nodes[0], nodes[1], nodes[2]];
    let b2 = [nodes[0], nodes[1], nodes[3]];
    let b3 = [nodes[3]];
    let b4 = [nodes[4]];
    let b5 = [nodes[5]];
    SparseGraph {
        edges: vec![
            (basis(&start), vector(&[(&b1, 1), (&b2, 1)])),
            (basis(&b1), vector(&[(&b3, 1), (&b4, 1)])),
            (basis(&b2), vector(&[(&b3, 1), (&b5, 1)])),
        ],
    }
}

fn path_nodes(p: &HgPath) -> Vec<Vec<u32>> {
    p.bases.iter().map(|b| b.nodes.clone()).collect()
}

fn sorted_paths(paths: &[HgPath]) -> Vec<Vec<Vec<u32>>> {
    let mut v: Vec<Vec<Vec<u32>>> = paths.iter().map(path_nodes).collect();
    v.sort();
    v
}

#[test]
fn test_bfs() {
    let graph = sample_graph();
    let start = basis(&[0, 1]);
    let bfs = bfs_base(&graph, &start, 2);
    println!("bfs: {:#?}", bfs);
    assert_eq!(
        sorted_paths(&bfs),
        vec![vec![vec![0, 1], vec![0, 1, 2]], vec![vec![0, 1], vec![0, 1, 3]]]
    );
}

#[test]
fn bfs_two_step_paths_from_pair() {
    let graph = SparseGraph {
        edges: vec![(basis(&[1, 2]), vector(&[(&[1, 2, 3], 1), (&[1, 2, 4], 1)]))],
    };
    let bfs = bfs_base(&graph, &basis(&[2, 1]), 2);
    assert_eq!(bfs.len(), 2);
    assert_eq!(
        sorted_paths(&bfs),
        vec![vec![vec![1, 2], vec![1, 2, 3]], vec![vec![1, 2], vec![1, 2, 4]]]
    );
}

#[test]
fn dfs_finds_same_paths_as_bfs() {
    let graph = sample_graph();
    let start = basis(&[0, 1]);
    for steps in 0..5usize {
        let bfs = bfs_base(&graph, &start, steps);
        let dfs = dfs_base(&graph, &start, steps);
        assert_eq!(sorted_paths(&bfs), sorted_paths(&dfs));
    }
    let dfs = dfs_base(&graph, &start, 2);
    assert_eq!(dfs.len(), 2);
}

#[test]
fn three_step_paths_follow_the_graph() {
    let graph = sample_graph();
    let expected = vec![
        vec![vec![0, 1], vec![0, 1, 2], vec![3]],
        vec![vec![0, 1], vec![0, 1, 2], vec![4]],
        vec![vec![0, 1], vec![0, 1, 3], vec![3]],
        vec![vec![0, 1], vec![0, 1, 3], vec![5]],
    ];
    let bfs = bfs_base(&graph, &basis(&[0, 1]), 3);
    assert_eq!(sorted_paths(&bfs), expected);
    let dfs = dfs_base(&graph, &basis(&[0, 1]), 3);
    assert_eq!(sorted_paths(&dfs), expected);
    // Breadth first finishes the paths through {0,1,2} first, depth first those through {0,1,3}.
    assert_eq!(path_nodes(&bfs[0])[1], vec![0, 1, 2]);
    assert_eq!(path_nodes(&dfs[0])[1], vec![0, 1, 3]);
}

#[test]
fn search_with_too_few_steps_is_empty() {
    let graph = sample_graph();
    assert!(bfs_base(&graph, &basis(&[0, 1]), 1).is_empty());
    assert!(dfs_base(&graph, &basis(&[0, 1]), 0).is_empty());
}

#[test]
fn extend_appends_each_successor() {
    let graph = sample_graph();
    let p = HgPath::new(basis(&[0, 1]));
    let children = p.extend(&graph);
    assert_eq!(children.len(), 2);
    assert_eq!(path_nodes(&children[0]), vec![vec![0, 1], vec![0, 1, 2]]);
    assert_eq!(path_nodes(&children[1]), vec![vec![0, 1], vec![0, 1, 3]]);
    assert_eq!(children[0].len(), 2);
    assert_eq!(children[1].last_basis().nodes, vec![0, 1, 3]);
}

#[test]
fn walk_applies_operator_repeatedly() {
    let graph = SparseGraph {
        edges: vec![
            (basis(&[1]), vector(&[(&[2], 3)])),
            (basis(&[2]), vector(&[(&[1], 2), (&[3], 5)])),
        ],
    };
    let start = vector(&[(&[1], 1)]);
    let zero = walk(start.duplicate(), &graph, 0).unwrap();
    assert_eq!(zero.entries.len(), 1);
    let two = walk(start, &graph, 2).unwrap();
    let got: Vec<(Vec<u32>, u64)> = two.entries.iter().map(|(b, w)| (b.nodes.clone(), *w)).collect();
    assert_eq!(got, vec![(vec![1], 6), (vec![3], 15)]);
}

#[test]
fn walk_reports_overflow() {
    let graph = SparseGraph { edges: vec![(basis(&[1]), vector(&[(&[1], u64::MAX)]))] };
    let start = vector(&[(&[1], 2)]);
    assert!(walk(start, &graph, 1).is_none());
}

#[test]
fn cut_collects_outbound_edges_once() {
    let graph = sample_graph();
    let cut = compute_cut(&vec![0, 1, 2], &graph);
    let got: Vec<(Vec<u32>, Vec<u32>)> =
        cut.iter().map(|(a, b)| (a.nodes.clone(), b.nodes.clone())).collect();
    assert_eq!(
        got,
        vec![
            (vec![0, 1], vec![0, 1, 2]),
            (vec![0, 1], vec![0, 1, 3]),
            (vec![0, 1, 2], vec![3]),
            (vec![0, 1, 2], vec![4]),
            (vec![0, 1, 3], vec![3]),
            (vec![0, 1, 3], vec![5]),
        ]
    );
    assert!(compute_cut(&vec![9], &graph).is_empty());
}

#[test]
fn probabilistic_walk_graph_is_empty() {
    let graph = sample_graph();
    assert!(compute_probabilistic_walk_graph(&graph).edges.is_empty());
}
