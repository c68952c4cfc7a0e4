use graph_centrality::brandes::{betweenness_normalizer, path_counts, shortest_path_dag};
use graph_centrality::closeness::{closeness_centrality, distance_total, Closeness};
use graph_centrality::ingest::{build_fight_graph, FighterRecord};
use graph_centrality::store::{CentralityGraph, GraphError};

fn graph(names: &[&str], edges: &[(usize, usize, u32)]) -> CentralityGraph {
    let mut g = CentralityGraph::new();
    for n in names {
        g.add_node(n.to_string()).unwrap();
    }
    for &(a, b, w) in edges {
        g.add_edge(a, b, w).unwrap();
    }
    g
}

fn closeness_value(c: &Closeness) -> f64 {
    if c.numerator == 0 {
        0.0
    } else {
        c.numerator as f64 / c.denominator as f64
    }
}

/// Brandes' dependency accumulation over the verified forward phase,
/// returning raw and normalized scores by node index.
fn betweenness(g: &CentralityGraph) -> (Vec<f64>, Vec<f64>) {
    let n = g.node_count();
    let mut raw = vec![0.0f64; n];
    for s in 0..n {
        let dag = shortest_path_dag(g, s);
        let sigma: Vec<f64> = path_counts(&dag, s).unwrap().iter().map(|&c| c as f64).collect();
        let mut delta = vec![0.0f64; n];
        for &w in dag.order.iter().rev() {
            for &v in &dag.pred[w] {
                delta[v] += sigma[v] / sigma[w] * (1.0 + delta[w]);
            }
            if w != s {
                raw[w] += delta[w];
            }
        }
    }
    let norm = match betweenness_normalizer(n) {
        Some(d) => raw.iter().map(|b| b / d as f64).collect(),
        None => vec![0.0; n],
    };
    (raw, norm)
}

fn close(a: f64, b: f64) -> bool {
    (a - b).abs() < 1e-6
}

#[test]
fn isolated_node_scores_zero() {
    let g = graph(&["A"], &[]);
    let c = closeness_centrality(&g);
    assert_eq!(c.len(), 1);
    assert_eq!(c[0].0, "A");
    assert_eq!(closeness_value(&c[0].1), 0.0);
    assert_eq!(betweenness(&g).1, vec![0.0]);
}

#[test]
fn path_graph_middle_is_central() {
    let g = graph(&["A", "B", "C"], &[(0, 1, 1), (1, 2, 1)]);
    let c = closeness_centrality(&g);
    assert_eq!(c[0].1, Closeness { numerator: 2, denominator: 3 });
    assert_eq!(c[1].1, Closeness { numerator: 2, denominator: 2 });
    assert_eq!(c[2].1, Closeness { numerator: 2, denominator: 3 });
    assert!(closeness_value(&c[1].1) > closeness_value(&c[0].1));
    let (_, b) = betweenness(&g);
    assert!(close(b[1], 1.0));
    assert!(close(b[0], 0.0));
    assert!(close(b[2], 0.0));
}

#[test]
fn complete_graph_is_flat() {
    let g = graph(
        &["A", "B", "C", "D"],
        &[(0, 1, 1), (0, 2, 1), (0, 3, 1), (1, 2, 1), (1, 3, 1), (2, 3, 1)],
    );
    for (_, c) in closeness_centrality(&g) {
        assert!(close(closeness_value(&c), 1.0));
    }
    for b in betweenness(&g).1 {
        assert!(close(b, 0.0));
    }
}

#[test]
fn symmetric_nodes_share_betweenness() {
    // A - B - D - E and A - C - D: B and C mirror each other.
    let g = graph(
        &["A", "B", "C", "D", "E"],
        &[(0, 1, 1), (0, 2, 1), (1, 3, 1), (2, 3, 1), (3, 4, 1)],
    );
    let (_, b) = betweenness(&g);
    assert!(close(b[1], b[2]));
    assert!(b[3] > b[1]);
    let c = closeness_centrality(&g);
    assert_eq!(c[1].1, c[2].1);
}

#[test]
fn normalization_only_scales() {
    let g = graph(
        &["A", "B", "C", "D", "E"],
        &[(0, 1, 1), (1, 2, 1), (2, 3, 1), (3, 4, 1), (1, 3, 1)],
    );
    let (raw, norm) = betweenness(&g);
    let d = betweenness_normalizer(5).unwrap() as f64;
    for i in 0..5 {
        assert!(close(raw[i] / d, norm[i]));
        for j in 0..5 {
            assert_eq!(raw[i] < raw[j], norm[i] < norm[j]);
        }
    }
}

fn fighters() -> Vec<FighterRecord> {
    ["Dustin Poirier", "Khabib Nurmagomedov", "Jose Aldo", "Conor McGregor", "Nate Diaz"]
        .iter()
        .map(|n| FighterRecord { name: n.to_string(), wins: 10, losses: 2 })
        .collect()
}

#[test]
fn fight_graph_ranks_mcgregor_first() {
    let g = build_fight_graph(&fighters()).unwrap();
    assert_eq!(g.node_count(), 5);
    let (poirier, khabib, aldo, mcgregor, diaz) = (0, 1, 2, 3, 4);
    let (_, b) = betweenness(&g);
    for v in [poirier, khabib, aldo, diaz] {
        assert!(b[mcgregor] > b[v]);
    }
    assert!(close(b[mcgregor], 1.0 / 3.0));
    assert!(close(b[poirier], 1.0 / 12.0));
    assert!(close(b[khabib], 0.0));
    assert!(close(b[aldo], 0.0));
    let c: Vec<f64> = closeness_centrality(&g).iter().map(|x| closeness_value(&x.1)).collect();
    assert!(c.iter().all(|&x| x > 0.0));
    assert!(close(c[mcgregor], 1.0));
    assert!(close(c[poirier], 0.8) && close(c[diaz], 0.8));
    assert!(close(c[khabib], 4.0 / 6.0) && close(c[aldo], 4.0 / 6.0));
}

#[test]
fn fight_graph_follows_record_order() {
    let mut recs = fighters();
    recs.reverse();
    recs.push(FighterRecord { name: "Tony Ferguson".to_string(), wins: 25, losses: 8 });
    let g = build_fight_graph(&recs).unwrap();
    assert_eq!(g.node_count(), 6);
    assert_eq!(g.name(1), "Conor McGregor");
    let c = closeness_centrality(&g);
    assert_eq!(c[1].1, Closeness { numerator: 5, denominator: 4 });
    assert_eq!(c[5].1, Closeness { numerator: 0, denominator: 1 });
}

#[test]
fn fight_graph_missing_fighter() {
    let mut recs = fighters();
    recs.remove(2);
    assert!(matches!(build_fight_graph(&recs), Err(GraphError::InvalidEdge)));
}

#[test]
fn fight_graph_duplicate_fighter() {
    let mut recs = fighters();
    recs.push(FighterRecord { name: "Nate Diaz".to_string(), wins: 0, losses: 0 });
    assert!(matches!(build_fight_graph(&recs), Err(GraphError::DuplicateNode)));
}

#[test]
fn disconnected_components_stay_apart() {
    let g = graph(&["A", "B", "C", "D"], &[(0, 1, 1), (2, 3, 1)]);
    for (_, c) in closeness_centrality(&g) {
        assert_eq!(c, Closeness { numerator: 3, denominator: 1 });
    }
    for b in betweenness(&g).1 {
        assert!(b.is_finite());
        assert!(close(b, 0.0));
    }
    let dag = shortest_path_dag(&g, 0);
    assert_eq!(dag.order, vec![0, 1]);
    assert_eq!(dag.dist, vec![Some(0), Some(1), None, None]);
}

#[test]
fn weighted_distances_take_lightest_walk() {
    let g = graph(&["A", "B", "C"], &[(0, 1, 2), (1, 2, 3), (0, 2, 10)]);
    assert_eq!(distance_total(&g, 0), 7);
    assert_eq!(distance_total(&g, 2), 8);
    let c = closeness_centrality(&g);
    assert_eq!(c[0].1, Closeness { numerator: 2, denominator: 7 });
}

#[test]
fn parallel_edges_keep_the_lighter() {
    let g = graph(&["A", "B"], &[(0, 1, 5), (0, 1, 2)]);
    assert_eq!(distance_total(&g, 0), 2);
    let dag = shortest_path_dag(&g, 0);
    assert_eq!(dag.pred[1], vec![0, 0]);
}

#[test]
fn dag_records_layers_and_predecessors() {
    let g = graph(
        &["A", "B", "C", "D"],
        &[(0, 1, 1), (0, 2, 1), (1, 3, 1), (2, 3, 1)],
    );
    let dag = shortest_path_dag(&g, 0);
    assert_eq!(dag.order[0], 0);
    assert_eq!(dag.order.len(), 4);
    assert_eq!(dag.dist, vec![Some(0), Some(1), Some(1), Some(2)]);
    let mut p = dag.pred[3].clone();
    p.sort();
    assert_eq!(p, vec![1, 2]);
    assert!(dag.pred[0].is_empty());
    let mut nb = g.neighbors(0);
    nb.sort();
    assert_eq!(nb, vec![1, 2]);
}

#[test]
fn store_rejects_bad_changes() {
    let mut g = graph(&["A", "B"], &[]);
    assert_eq!(g.add_node("A".to_string()), Err(GraphError::DuplicateNode));
    assert_eq!(g.add_edge(0, 0, 1), Err(GraphError::InvalidEdge));
    assert_eq!(g.add_edge(0, 2, 1), Err(GraphError::InvalidEdge));
    assert_eq!(g.add_edge(0, 1, 1), Ok(()));
    assert_eq!(g.add_node("C".to_string()), Ok(2));
    assert_eq!(g.find(&"C".to_string()), Some(2));
    assert_eq!(g.find(&"Z".to_string()), None);
    assert_eq!(g.node_count(), 3);
}

#[test]
fn normalizer_needs_three_nodes() {
    assert_eq!(betweenness_normalizer(0), None);
    assert_eq!(betweenness_normalizer(2), None);
    assert_eq!(betweenness_normalizer(3), Some(2));
    assert_eq!(betweenness_normalizer(5), Some(12));
}

#[test]
fn path_counts_add_over_predecessors() {
    let g = graph(
        &["A", "B", "C", "D", "E"],
        &[(0, 1, 1), (0, 2, 1), (1, 3, 1), (2, 3, 1), (3, 4, 1)],
    );
    let dag = shortest_path_dag(&g, 0);
    assert_eq!(path_counts(&dag, 0), Some(vec![1, 1, 1, 2, 2]));
    let dag = shortest_path_dag(&g, 4);
    assert_eq!(path_counts(&dag, 4), Some(vec![2, 1, 1, 1, 1]));
}

#[test]
fn path_counts_leave_unreached_at_zero() {
    let g = graph(&["A", "B", "C"], &[(0, 1, 1), (0, 1, 1)]);
    let dag = shortest_path_dag(&g, 0);
    assert_eq!(path_counts(&dag, 0), Some(vec![1, 2, 0]));
}
