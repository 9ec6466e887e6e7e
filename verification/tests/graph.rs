use algorithms::dijkstra::dijkstra;
use algorithms::dijkstra::Edge;
use algorithms::dijkstra::INF;

fn edge(to: usize, cost: i64) -> Edge {
    Edge { to, cost }
}

#[test]
fn shortest_distances() {
    let g = vec![
        vec![edge(1, 7), edge(2, 9), edge(5, 14)],
        vec![edge(2, 10), edge(3, 15)],
        vec![edge(3, 11), edge(5, 2)],
        vec![edge(4, 6)],
        vec![],
        vec![edge(4, 9)],
    ];

    let dis = dijkstra(&g, 0);
    assert_eq!(dis, vec![0, 7, 9, 20, 20, 11]);
}

#[test]
fn unreachable_vertex_stays_at_infinity() {
    let g = vec![vec![edge(1, 3)], vec![], vec![edge(0, 1)]];

    let dis = dijkstra(&g, 0);
    assert_eq!(dis, vec![0, 3, INF]);
}

#[test]
fn source_alone() {
    let g = vec![vec![]];
    let dis = dijkstra(&g, 0);
    assert_eq!(dis, vec![0]);
}

#[test]
fn zero_cost_cycle() {
    let g = vec![vec![edge(1, 0)], vec![edge(0, 0)]];
    let dis = dijkstra(&g, 0);
    assert_eq!(dis, vec![0, 0]);
}
