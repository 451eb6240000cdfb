use magpie_app::graph::graph_topology;

fn triples(pairs: &[(i64, &str, &str)]) -> Vec<(i64, String, String)> {
    pairs
        .iter()
        .map(|(id, name, body)| (*id, name.to_string(), body.to_string()))
        .collect()
}

#[test]
fn builds_nodes_and_edges_excluding_orphans() {
    let notes = triples(&[
        (1, "A", "links [[B]]"),
        (2, "B", "links [[C]]"),
        (3, "C", "no links"),
        (4, "D", "an orphan, no links in or out"),
    ]);
    let (nodes, edges) = graph_topology(&notes);
    assert_eq!(nodes.len(), 3);
    assert_eq!(edges.len(), 2);
    assert!(!nodes.iter().any(|n| n.1 == "D"));
}

#[test]
fn self_link_produces_no_self_edge() {
    let notes = triples(&[(1, "A", "self [[A]] and [[B]]"), (2, "B", "nothing")]);
    let (nodes, edges) = graph_topology(&notes);
    assert_eq!(nodes.len(), 2);
    assert_eq!(edges.len(), 1);
    assert_ne!(edges[0].a, edges[0].b);
}

#[test]
fn unresolved_link_produces_no_edge_or_extra_node() {
    let notes = triples(&[(1, "A", "see [[Ghost]]")]);
    let (nodes, edges) = graph_topology(&notes);
    assert!(nodes.is_empty());
    assert!(edges.is_empty());
}

#[test]
fn edges_are_deduplicated_and_case_insensitive() {
    let notes = triples(&[
        (1, "A", "[[b]] [[B]] [[ b ]]"),
        (2, "B", "[[a]]"),
        (3, "C", "[[A]]"),
    ]);
    let (nodes, edges) = graph_topology(&notes);
    assert_eq!(nodes, vec![(1, "A".to_string()), (2, "B".to_string()), (3, "C".to_string())]);
    let pairs: Vec<(usize, usize)> = edges.iter().map(|e| (e.a, e.b)).collect();
    assert_eq!(pairs, vec![(0, 1), (0, 2)]);
}

#[test]
fn keeps_the_best_connected_notes_when_capped() {
    // A hub linked from 200 leaves: every leaf has one edge, the hub 200.
    let mut notes = vec![(0i64, "hub".to_string(), String::new())];
    for i in 1..=200 {
        notes.push((i, format!("leaf{i}"), "[[hub]]".to_string()));
    }
    let (nodes, edges) = graph_topology(&notes);
    assert_eq!(nodes.len(), 150);
    assert_eq!(nodes[0].1, "hub");
    // Leaves tie on degree; smaller ids win.
    assert_eq!(nodes[149].0, 149);
    assert_eq!(edges.len(), 149);
}

#[test]
fn a_long_chain_is_capped_with_ordered_distinct_edges() {
    let notes: Vec<(i64, String, String)> = (0..200)
        .map(|i| (i as i64, format!("n{i}"), format!("next [[n{}]]", i + 1)))
        .collect();
    let (nodes, edges) = graph_topology(&notes);
    assert_eq!(nodes.len(), 150);
    for w in edges.windows(2) {
        assert!((w[0].a, w[0].b) < (w[1].a, w[1].b));
    }
    for e in &edges {
        assert!(e.a < e.b && e.b < nodes.len());
    }
}
