use hypergraph::basis::SparseBasis;
use hypergraph::cardinality::{average_cardinality, expected_cardinality};
use hypergraph::graph::{SparseGraph, SparseVector};

fn basis(nodes: &[u32]) -> SparseBasis {
    SparseBasis::from_nodes(&nodes.to_vec())
}

fn vector(entries: &[(&[u32], u64)]) -> SparseVector {
    SparseVector { entries: entries.iter().map(|(b, w)| (basis(b), *w)).collect() }
}

fn plain(v: &SparseVector) -> Vec<(Vec<u32>, u64)> {
    v.entries.iter().map(|(b, w)| (b.nodes.clone(), *w)).collect()
}

fn operator() -> SparseGraph {
    SparseGraph {
        edges: vec![
            (basis(&[1, 2]), vector(&[(&[1, 2, 3], 2), (&[4], 1)])),
            (basis(&[4]), vector(&[(&[1, 2, 3], 5), (&[4, 5], 1)])),
        ],
    }
}

#[test]
fn basis_is_sorted_and_deduplicated() {
    let b = basis(&[5, 1, 3, 1, 5]);
    assert_eq!(b.nodes, vec![1, 3, 5]);
    assert_eq!(b.size(), 3);
    assert!(b.same_as(&basis(&[3, 5, 1])));
    assert!(!b.same_as(&basis(&[3, 5])));
    assert!(b.contains_node(3));
    assert!(!b.contains_node(4));
}

#[test]
fn map_vec_scales_and_sums() {
    let g = operator();
    let v = vector(&[(&[1, 2], 3), (&[4], 2)]);
    let out = g.map_vec(&v).unwrap();
    assert_eq!(plain(&out), vec![(vec![1, 2, 3], 16), (vec![4], 3), (vec![4, 5], 2)]);
}

#[test]
fn map_vec_of_empty_vector_is_empty() {
    let g = operator();
    let out = g.map_vec(&SparseVector::new()).unwrap();
    assert!(out.entries.is_empty());
    let out = SparseGraph::new().map_vec(&SparseVector::new()).unwrap();
    assert!(out.entries.is_empty());
}

#[test]
fn map_vec_absent_basis_gives_empty() {
    let g = operator();
    let out = g.map_vec(&vector(&[(&[9], 4)])).unwrap();
    assert!(out.entries.is_empty());
}

#[test]
fn map_vec_reports_overflow() {
    let g = SparseGraph { edges: vec![(basis(&[1]), vector(&[(&[2], u64::MAX)]))] };
    assert!(g.map_vec(&vector(&[(&[1], 1)])).is_some());
    assert!(g.map_vec(&vector(&[(&[1], 2)])).is_none());
    assert!(g.map_vec(&vector(&[(&[1], 1), (&[1], 1)])).is_none());
}

#[test]
fn map_vec_is_linear() {
    let g = operator();
    let v1 = vector(&[(&[1, 2], 1)]);
    let v2 = vector(&[(&[4], 3), (&[1, 2], 1)]);
    let (a, b) = (2u64, 5u64);
    let combined = SparseVector {
        entries: v1
            .entries
            .iter()
            .map(|(k, w)| (k.duplicate(), a * w))
            .chain(v2.entries.iter().map(|(k, w)| (k.duplicate(), b * w)))
            .collect(),
    };
    let lhs = plain(&g.map_vec(&combined).unwrap());
    let r1 = plain(&g.map_vec(&v1).unwrap());
    let r2 = plain(&g.map_vec(&v2).unwrap());
    let weight = |s: &Vec<(Vec<u32>, u64)>, k: &Vec<u32>| -> u64 {
        s.iter().filter(|(b, _)| b == k).map(|(_, w)| *w).sum()
    };
    for key in [vec![1, 2, 3], vec![4], vec![4, 5], vec![7]] {
        assert_eq!(weight(&lhs, &key), a * weight(&r1, &key) + b * weight(&r2, &key));
    }
}

#[test]
fn random_basis_picks_by_draw() {
    let g = operator();
    assert_eq!(g.random_basis(0).unwrap().nodes, vec![1, 2]);
    assert_eq!(g.random_basis(3).unwrap().nodes, vec![4]);
    assert!(SparseGraph::new().random_basis(7).is_none());
}

#[test]
fn outbound_edges_of_node() {
    let g = operator();
    let e = g.get_outbound_edges(4);
    let got: Vec<(Vec<u32>, Vec<u32>)> = e.iter().map(|(a, b)| (a.nodes.clone(), b.nodes.clone())).collect();
    assert_eq!(got, vec![(vec![4], vec![1, 2, 3]), (vec![4], vec![4, 5])]);
    assert!(g.get_outbound_edges(3).is_empty());
}

#[test]
fn cardinality_sums_per_size() {
    let v = vector(&[(&[1, 2], 3), (&[4], 2), (&[5, 6], 4), (&[7, 8, 9], 1)]);
    let card = v.cardinality().unwrap();
    assert_eq!(card, vec![(2, 7), (1, 2), (3, 1)]);
    let mass: u64 = card.iter().map(|(_, w)| *w).sum();
    let total: u64 = v.entries.iter().map(|(_, w)| *w).sum();
    assert_eq!(mass, total);
}

#[test]
fn cardinality_reports_overflow() {
    let v = vector(&[(&[1], u64::MAX), (&[2], 1)]);
    assert!(v.cardinality().is_none());
    let v = vector(&[(&[1], u64::MAX), (&[2, 3], 1)]);
    assert_eq!(v.cardinality().unwrap(), vec![(1, u64::MAX), (2, 1)]);
}

#[test]
fn average_cardinality_with_no_samples_is_empty() {
    let est = average_cardinality(&operator(), &vec![]).unwrap();
    assert!(est.weights.is_empty());
    assert_eq!(est.num_samples, 0);
    let est = average_cardinality(&SparseGraph::new(), &vec![]).unwrap();
    assert!(est.weights.is_empty());
}

#[test]
fn average_cardinality_accumulates_samples() {
    let est = average_cardinality(&operator(), &vec![0, 1, 2]).unwrap();
    assert_eq!(est.num_samples, 3);
    // draw 0 and 2 pick {1,2}: sizes 3 -> 2, 1 -> 1; draw 1 picks {4}: sizes 3 -> 5, 2 -> 1.
    assert_eq!(est.weights, vec![(3, 9), (1, 2), (2, 1)]);
}

#[test]
fn average_cardinality_on_empty_graph_has_no_weights() {
    let est = average_cardinality(&SparseGraph::new(), &vec![4, 5]).unwrap();
    assert!(est.weights.is_empty());
    assert_eq!(est.num_samples, 2);
}

#[test]
fn expected_cardinality_of_two_halves() {
    // {1: 0.5, 3: 0.5} as weights over a scale of 2.
    let card = vec![(1usize, 1u64), (3, 1)];
    let moment = expected_cardinality(&card).unwrap();
    assert_eq!(moment, 4);
    assert_eq!(moment as f64 / 2.0, 2.0);
}

#[test]
fn expected_cardinality_sums_size_times_weight() {
    assert_eq!(expected_cardinality(&vec![]), Some(0));
    assert_eq!(expected_cardinality(&vec![(2, 3), (5, 1), (0, 9)]), Some(11));
    let big = vec![(usize::MAX, u64::MAX), (usize::MAX, u64::MAX), (usize::MAX, u64::MAX)];
    assert_eq!(expected_cardinality(&big), None);
}

#[test]
fn cardinality_leaves_out_zero_weights() {
    let v = vector(&[(&[1, 2], 0), (&[4], 2), (&[5, 6], 0)]);
    assert_eq!(v.cardinality().unwrap(), vec![(1, 2)]);
    let g = SparseGraph { edges: vec![(basis(&[1]), vector(&[(&[2, 3], 0), (&[4], 1)]))] };
    let est = average_cardinality(&g, &vec![0, 0]).unwrap();
    assert_eq!(est.weights, vec![(1, 2)]);
}

#[test]
fn well_formedness_checks() {
    assert!(basis(&[3, 1]).is_wf());
    assert!(!SparseBasis { nodes: vec![2, 1] }.is_wf());
    assert!(!SparseBasis { nodes: vec![1, 1] }.is_wf());
    assert!(operator().is_wf());
    assert!(vector(&[(&[1], 1)]).is_wf());
    assert!(!SparseVector { entries: vec![(SparseBasis { nodes: vec![3, 2] }, 1)] }.is_wf());
    let twice = SparseGraph {
        edges: vec![(basis(&[1]), SparseVector::new()), (basis(&[1]), SparseVector::new())],
    };
    assert!(!twice.is_wf());
}
