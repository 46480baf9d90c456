use memnix::arena::ArenaId;
use memnix::scc::strongly_connected_components;

#[test]
fn scc_groups_cycles_in_reverse_topological_order() {
    // 0 -> 1 -> 2 -> 1, 2 -> 3
    let succ = vec![vec![1], vec![2], vec![1, 3], vec![]];
    let sccs = strongly_connected_components(&succ);
    assert_eq!(sccs.len(), 3);
    assert_eq!(sccs[0], vec![ArenaId(3)]);
    let mut cycle = sccs[1].clone();
    cycle.sort();
    assert_eq!(cycle, vec![ArenaId(1), ArenaId(2)]);
    assert_eq!(sccs[2], vec![ArenaId(0)]);
}

#[test]
fn scc_of_graph_without_edges() {
    let succ: Vec<Vec<usize>> = vec![vec![], vec![]];
    let sccs = strongly_connected_components(&succ);
    assert_eq!(sccs.len(), 2);
}
