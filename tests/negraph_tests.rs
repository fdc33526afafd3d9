use std::collections::VecDeque;

use hypergraph::negraph::NEGraph;

#[test]
fn test_node_creation() {
    let mut hg = NEGraph::<String, String>::new();
    assert_eq!(hg.add_node(String::from("node 1")), 0);
    let ids = hg.add_nodes(vec![String::from("node 2"), String::from("node 3")]);
    assert_eq!(ids, vec![1, 2]);
    println!("{:?}", hg);
    assert_eq!(hg.node_ref(&0), "node 1");
    assert_eq!(hg.node_ref(&1), "node 2");
    assert_eq!(hg.node_ref(&2), "node 3");
}

#[test]
fn add_node_ids_increase_from_zero() {
    let mut hg = NEGraph::<u8, ()>::new();
    let ids: Vec<u32> = (0..5u8).map(|d| hg.add_node(d)).collect();
    assert_eq!(ids, vec![0, 1, 2, 3, 4]);
    let more = hg.add_nodes(vec![10, 11]);
    assert_eq!(more, vec![5, 6]);
    let mut all = hg.nodes();
    all.sort();
    assert_eq!(all, vec![0, 1, 2, 3, 4, 5, 6]);
}

#[test]
fn removed_id_is_not_reused_without_queue() {
    let mut hg = NEGraph::<&str, ()>::new();
    let a = hg.add_node("a");
    let _b = hg.add_node("b");
    assert_eq!(hg.remove_node(&a), Some("a"));
    assert_eq!(hg.remove_node(&a), None);
    let c = hg.add_node("c");
    assert_eq!(c, 2);
    assert!(hg.reusable_nodes.is_empty());
}

#[test]
fn exhausted_counter_draws_from_queue() {
    let mut hg = NEGraph::<&str, ()>::new();
    hg.next_usable_node = u32::MAX;
    hg.reusable_nodes = VecDeque::from(vec![7, 9]);
    assert_eq!(hg.add_node("x"), 7);
    assert_eq!(*hg.node_ref(&7), "x");
    assert_eq!(hg.reusable_nodes, VecDeque::from(vec![9]));
}

#[test]
fn add_nodes_takes_consecutive_fresh_ids() {
    let mut hg = NEGraph::<&str, ()>::new();
    assert_eq!(hg.add_node("a"), 0);
    hg.reusable_nodes = VecDeque::from(vec![0]);
    let ids = hg.add_nodes(vec!["p", "q", "r"]);
    assert_eq!(ids, vec![1, 2, 3]);
    assert_eq!(hg.next_usable_node, 4);
    assert_eq!(hg.reusable_nodes, VecDeque::from(vec![0]));
    assert_eq!(*hg.node_ref(&1), "p");
    assert_eq!(*hg.node_ref(&3), "r");
}

#[test]
fn add_nodes_skips_live_and_queued_ids() {
    let mut hg = NEGraph::<&str, ()>::new();
    hg.nodes.insert(1, "live");
    hg.reusable_nodes = VecDeque::from(vec![2]);
    let ids = hg.add_nodes(vec!["p", "q"]);
    assert_eq!(ids, vec![0, 3]);
    assert_eq!(hg.next_usable_node, 4);
    assert_eq!(hg.reusable_nodes, VecDeque::from(vec![2]));
    assert_eq!(*hg.node_ref(&3), "q");
}

#[test]
fn add_nodes_reuses_queue_after_exhaustion() {
    let mut hg = NEGraph::<&str, ()>::new();
    hg.next_usable_node = u32::MAX;
    hg.nodes.insert(5, "live");
    hg.reusable_nodes = VecDeque::from(vec![5, 4, 6]);
    let ids = hg.add_nodes(vec!["p", "q", "r"]);
    assert_eq!(ids, vec![u32::MAX, 4, 6]);
    assert_eq!(*hg.node_ref(&4), "q");
    assert!(hg.reusable_nodes.is_empty());
    assert_eq!(*hg.node_ref(&5), "live");
}

#[test]
fn add_nodes_with_no_data_changes_nothing() {
    let mut hg = NEGraph::<&str, ()>::new();
    hg.add_node("a");
    let ids = hg.add_nodes(vec![]);
    assert!(ids.is_empty());
    assert_eq!(hg.next_usable_node, 1);
    assert_eq!(hg.nodes(), vec![0]);
}

#[test]
fn edges_are_retrievable() {
    let mut hg = NEGraph::<&str, &str>::new();
    let a = hg.add_node("a");
    let b = hg.add_node("b");
    let e = hg.add_edge(&vec![b, a, b], "ab");
    assert_eq!(*hg.edge_ref(&e), "ab");
    assert_eq!(hg.edges[&e].nodes.nodes, vec![0, 1]);
    assert_eq!(hg.change_edge_data(&e, "ba"), Some("ab"));
    assert_eq!(*hg.edge_ref_mut(&e), "ba");
    *hg.edge_ref_mut(&e) = "cd";
    assert_eq!(*hg.edge_ref(&e), "cd");
    assert_eq!(hg.change_edge_data(&e, "ba"), Some("cd"));
    assert_eq!(hg.change_edge_data(&(e.wrapping_add(1)), "zz"), None);
    let f = hg.add_edge(&vec![a], "a");
    assert_ne!(e, f);
    assert_eq!(*hg.edge_ref(&e), "ba");
    assert_eq!(*hg.edge_ref(&f), "a");
}

#[test]
fn node_data_can_be_changed() {
    let mut hg = NEGraph::<String, ()>::new();
    let a = hg.add_node(String::from("a"));
    hg.node_ref_mut(&a).push('!');
    assert_eq!(hg.node_ref(&a), "a!");
    assert_eq!(hg.change_node_data(&a, String::from("b")), Some(String::from("a!")));
    assert_eq!(hg.change_node_data(&42, String::from("c")), None);
    assert_eq!(hg.node_ref(&a), "b");
}
