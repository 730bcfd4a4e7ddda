use repo_review::graph::find_cycles;
use repo_review::repository::DependencyEdge;

fn edge(from: &str, to: &str) -> DependencyEdge {
    DependencyEdge { from: from.to_string(), to: to.to_string() }
}

fn names(c: &[&str]) -> Vec<String> {
    c.iter().map(|s| s.to_string()).collect()
}

#[test]
fn no_edges_no_cycles() {
    assert!(find_cycles(&vec![]).is_empty());
}

#[test]
fn acyclic_edges_give_no_cycles() {
    let edges = vec![edge("a", "b"), edge("b", "c"), edge("a", "c"), edge("d", "c")];
    assert!(find_cycles(&edges).is_empty());
}

#[test]
fn self_edge_is_a_cycle_of_one() {
    let cycles = find_cycles(&vec![edge("A", "A")]);
    assert_eq!(cycles, vec![names(&["A"])]);
}

#[test]
fn triangle_is_one_cycle_in_traversal_order() {
    let edges = vec![edge("A", "B"), edge("B", "C"), edge("C", "A")];
    let first = find_cycles(&edges);
    assert_eq!(first, vec![names(&["A", "B", "C"])]);
    let second = find_cycles(&edges);
    assert_eq!(first, second);
}

#[test]
fn duplicate_edges_report_once() {
    let edges = vec![edge("A", "B"), edge("B", "A"), edge("B", "A"), edge("A", "B")];
    assert_eq!(find_cycles(&edges), vec![names(&["A", "B"])]);
}

#[test]
fn repeated_self_edge_reports_once() {
    let edges = vec![edge("x", "x"), edge("x", "x")];
    assert_eq!(find_cycles(&edges), vec![names(&["x"])]);
}

#[test]
fn inner_cycle_covered_by_outer_is_not_reported() {
    // A -> B -> C -> A, and C -> B closes [B, C], a part of [A, B, C].
    let edges = vec![edge("A", "B"), edge("B", "C"), edge("C", "A"), edge("C", "B")];
    assert_eq!(find_cycles(&edges), vec![names(&["A", "B", "C"])]);
}

#[test]
fn separate_cycles_are_all_reported() {
    let edges = vec![edge("a", "b"), edge("b", "a"), edge("c", "d"), edge("d", "c"), edge("b", "c")];
    let cycles = find_cycles(&edges);
    assert_eq!(cycles, vec![names(&["a", "b"]), names(&["c", "d"])]);
}

#[test]
fn every_cycle_closes_along_edges() {
    let edges = vec![
        edge("m", "n"),
        edge("n", "o"),
        edge("o", "m"),
        edge("o", "p"),
        edge("p", "p"),
        edge("q", "m"),
    ];
    let cycles = find_cycles(&edges);
    assert!(!cycles.is_empty());
    for c in &cycles {
        for k in 0..c.len() {
            let a = &c[k];
            let b = &c[(k + 1) % c.len()];
            assert!(edges.iter().any(|e| &e.from == a && &e.to == b));
        }
    }
}

#[test]
fn long_chain_does_not_overflow_the_stack() {
    let n = 3000;
    let mut edges = Vec::new();
    for i in 0..n {
        edges.push(edge(&format!("f{}", i), &format!("f{}", i + 1)));
    }
    assert!(find_cycles(&edges).is_empty());
    edges.push(edge(&format!("f{}", n), "f0"));
    let cycles = find_cycles(&edges);
    assert_eq!(cycles.len(), 1);
    assert_eq!(cycles[0].len(), n + 1);
}

#[test]
fn every_self_edge_is_reported() {
    let edges = vec![edge("A", "A"), edge("B", "B")];
    assert_eq!(find_cycles(&edges), vec![names(&["A"]), names(&["B"])]);
}

#[test]
fn self_edge_inside_larger_cycle_lies_on_a_reported_cycle() {
    let edges = vec![edge("A", "B"), edge("B", "A"), edge("A", "A")];
    let cycles = find_cycles(&edges);
    assert_eq!(cycles, vec![names(&["A", "B"])]);
}

#[test]
fn no_two_cycles_are_rotations() {
    let edges = vec![
        edge("A", "B"),
        edge("B", "C"),
        edge("C", "A"),
        edge("B", "A"),
        edge("C", "B"),
    ];
    let cycles = find_cycles(&edges);
    for i in 0..cycles.len() {
        for j in 0..cycles.len() {
            if i != j {
                let a = &cycles[i];
                let b = &cycles[j];
                let rotated = a.len() == b.len()
                    && (0..a.len()).any(|k| (0..a.len()).all(|t| a[(t + k) % a.len()] == b[t]));
                assert!(!rotated);
            }
        }
    }
}
