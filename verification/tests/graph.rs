use rmt_core::graph::DependencyGraph;
use rmt_core::sets::copy_set;
use rmt_core::sets::members;
use rmt_core::sets::set_of;
use rmt_core::sets::sort_ascending;
use std::collections::HashSet;

fn set(ids: &[u32]) -> HashSet<u32> {
    ids.iter().copied().collect()
}

#[test]
fn test_add_and_get_dependencies() {
    let mut graph = DependencyGraph::new();

    let deps: HashSet<u32> = [1, 3].into_iter().collect();
    graph.update_dependencies(2, deps, false);

    let retrieved = graph.get_dependencies(2);
    assert!(retrieved.contains(&1));
    assert!(retrieved.contains(&3));
    assert!(!retrieved.contains(&2));
}

#[test]
fn test_inverse_index() {
    let mut graph = DependencyGraph::new();

    graph.update_dependencies(2, [1].into_iter().collect(), false);
    graph.update_dependencies(3, [1].into_iter().collect(), false);

    let dependents = graph.get_dependents(1);
    assert!(dependents.contains(&2));
    assert!(dependents.contains(&3));
}

#[test]
fn test_all_dependents_bfs() {
    let mut graph = DependencyGraph::new();

    graph.update_dependencies(2, [1].into_iter().collect(), false);
    graph.update_dependencies(3, [2].into_iter().collect(), false);
    graph.update_dependencies(4, [3].into_iter().collect(), false);

    let all_deps = graph.get_all_dependents(1);
    assert!(all_deps.contains(&2));
    assert!(all_deps.contains(&3));
    assert!(all_deps.contains(&4));
    assert!(!all_deps.contains(&1));
}

#[test]
fn test_topological_sort() {
    let mut graph = DependencyGraph::new();

    graph.update_dependencies(1, HashSet::new(), false);
    graph.update_dependencies(2, [1].into_iter().collect(), false);
    graph.update_dependencies(3, [2].into_iter().collect(), false);

    let note_ids: HashSet<u32> = [1, 2, 3].into_iter().collect();
    let order = graph.get_evaluation_order(&note_ids);

    let pos_1 = order.iter().position(|&x| x == 1).unwrap();
    let pos_2 = order.iter().position(|&x| x == 2).unwrap();
    let pos_3 = order.iter().position(|&x| x == 3).unwrap();

    assert!(pos_1 < pos_2);
    assert!(pos_2 < pos_3);
}

#[test]
fn test_cycle_detection() {
    let mut graph = DependencyGraph::new();

    graph.update_dependencies(1, [3].into_iter().collect(), false);
    graph.update_dependencies(2, [1].into_iter().collect(), false);
    graph.update_dependencies(3, [2].into_iter().collect(), false);

    let cycles = graph.detect_cycles();
    assert!(!cycles.is_empty());
}

#[test]
fn test_remove_note() {
    let mut graph = DependencyGraph::new();

    graph.update_dependencies(2, [1].into_iter().collect(), false);
    graph.update_dependencies(3, [1, 2].into_iter().collect(), false);

    graph.remove_note(2);

    assert!(graph.get_dependencies(2).is_empty());

    let deps_3 = graph.get_dependencies(3);
    assert!(deps_3.contains(&1));
    assert!(!deps_3.contains(&2));
}

#[test]
fn test_base_note_tracking() {
    let mut graph = DependencyGraph::new();

    graph.update_dependencies(1, HashSet::new(), true);
    graph.update_dependencies(2, HashSet::new(), false);
    graph.update_dependencies(3, HashSet::new(), true);

    let base_deps = graph.get_base_note_dependents();
    assert!(base_deps.contains(&1));
    assert!(!base_deps.contains(&2));
    assert!(base_deps.contains(&3));
}

fn consistent(graph: &DependencyGraph, notes: &[u32]) -> bool {
    notes.iter().all(|&a| {
        notes.iter().all(|&b| {
            graph.get_dependencies(a).contains(&b) == graph.get_dependents(b).contains(&a)
        })
    })
}

#[test]
fn both_indices_hold_the_same_edges() {
    let notes = [0u32, 1, 2, 3, 4, 5];
    let mut graph = DependencyGraph::new();
    assert!(consistent(&graph, &notes));
    graph.update_dependencies(2, set(&[1, 3]), false);
    assert!(consistent(&graph, &notes));
    graph.update_dependencies(3, set(&[1]), true);
    assert!(consistent(&graph, &notes));
    graph.update_dependencies(2, set(&[3, 4]), true);
    assert!(consistent(&graph, &notes));
    assert_eq!(graph.get_dependencies(2), set(&[3, 4]));
    assert_eq!(graph.get_dependents(1), set(&[3]));
    assert_eq!(graph.get_dependents(3), set(&[2]));
    assert_eq!(graph.get_dependents(4), set(&[2]));
    graph.update_dependencies(2, set(&[]), false);
    assert!(consistent(&graph, &notes));
    assert_eq!(graph.get_dependents(3), set(&[]));
    assert_eq!(graph.get_base_note_dependents(), set(&[3]));
    graph.update_dependencies(5, set(&[5]), false);
    assert!(consistent(&graph, &notes));
    assert_eq!(graph.get_dependents(5), set(&[5]));
    graph.remove_note(5);
    assert!(consistent(&graph, &notes));
    assert_eq!(graph.get_dependents(5), set(&[]));
    graph.remove_note(1);
    assert!(consistent(&graph, &notes));
    assert_eq!(graph.get_dependencies(3), set(&[]));
    assert!(graph.has_note(3));
    assert!(!graph.has_note(1));
    assert_eq!(graph.note_count(), 2);
    graph.clear();
    assert_eq!(graph.note_count(), 0);
    assert_eq!(graph.get_base_note_dependents(), set(&[]));
    assert!(consistent(&graph, &notes));
}

#[test]
fn a_chain_of_dependents() {
    let mut graph = DependencyGraph::new();
    graph.update_dependencies(2, set(&[1]), false);
    graph.update_dependencies(3, set(&[2]), false);
    graph.update_dependencies(4, set(&[3]), false);
    assert_eq!(graph.get_all_dependents(1), set(&[2, 3, 4]));
    assert_eq!(graph.get_all_dependents(3), set(&[4]));
    assert_eq!(graph.get_all_dependents(4), set(&[]));
    assert_eq!(graph.get_all_dependencies(4), set(&[1, 2, 3]));
    assert_eq!(graph.get_all_dependencies(1), set(&[]));
    assert_eq!(graph.get_all_dependencies(9), set(&[]));
    assert!(graph.has_dependency_path(4, 1));
    assert!(graph.has_dependency_path(3, 2));
    assert!(!graph.has_dependency_path(1, 4));
    assert!(!graph.has_dependency_path(2, 2));
    assert!(!graph.has_dependency_path(9, 1));
    assert!(graph.detect_cycles().is_empty());
}

#[test]
fn two_paths_to_one_note() {
    let mut graph = DependencyGraph::new();
    graph.update_dependencies(2, set(&[1]), false);
    graph.update_dependencies(3, set(&[1, 2]), false);
    assert_eq!(graph.get_all_dependents(1), set(&[2, 3]));
    let order = graph.get_evaluation_order(&set(&[1, 2, 3]));
    assert_eq!(order, vec![1, 2, 3]);
}

#[test]
fn cycles_are_found_and_are_cycles() {
    let mut graph = DependencyGraph::new();
    graph.update_dependencies(1, set(&[3]), false);
    graph.update_dependencies(2, set(&[1]), false);
    graph.update_dependencies(3, set(&[2]), false);
    graph.update_dependencies(4, set(&[1]), false);
    let cycles = graph.detect_cycles();
    assert!(!cycles.is_empty());
    for cycle in &cycles {
        assert!(cycle.len() >= 2);
        assert_eq!(cycle.first(), cycle.last());
        for pair in cycle.windows(2) {
            assert!(graph.get_dependencies(pair[0]).contains(&pair[1]));
        }
    }
    assert!(graph.has_dependency_path(1, 1));
    assert!(!graph.has_dependency_path(4, 4));
    assert_eq!(graph.get_all_dependencies(1), set(&[2, 3]));
    assert_eq!(graph.get_all_dependents(1), set(&[2, 3, 4]));
    assert_eq!(graph.get_evaluation_order(&set(&[1, 2, 3, 4])), Vec::<u32>::new());

    let mut own = DependencyGraph::new();
    own.update_dependencies(7, set(&[7]), false);
    assert_eq!(own.detect_cycles(), vec![vec![7, 7]]);
    graph.update_dependencies(1, set(&[]), false);
    assert!(graph.detect_cycles().is_empty());
}

#[test]
fn evaluation_order_is_settled_by_id() {
    let mut graph = DependencyGraph::new();
    for id in [5u32, 3, 9, 1] {
        graph.update_dependencies(id, set(&[]), false);
    }
    assert_eq!(graph.get_evaluation_order(&set(&[1, 3, 5, 9])), vec![1, 3, 5, 9]);
    assert_eq!(graph.get_evaluation_order(&set(&[1, 3, 5, 9])), vec![1, 3, 5, 9]);
    graph.update_dependencies(3, set(&[9]), false);
    graph.update_dependencies(5, set(&[9]), false);
    graph.update_dependencies(1, set(&[3, 5, 100]), false);
    assert_eq!(graph.get_evaluation_order(&set(&[1, 3, 5, 9])), vec![9, 3, 5, 1]);
    assert_eq!(graph.get_evaluation_order(&set(&[1, 3, 5])), vec![3, 5, 1]);
    assert_eq!(graph.get_evaluation_order(&set(&[1, 9])), vec![1, 9]);
    assert_eq!(graph.get_evaluation_order(&set(&[1, 42])), vec![1, 42]);
    assert_eq!(graph.get_evaluation_order(&set(&[])), Vec::<u32>::new());
}

#[test]
fn the_smallest_ready_note_is_taken_first() {
    let mut graph = DependencyGraph::new();
    for id in [1u32, 2, 3] {
        graph.update_dependencies(id, set(&[]), false);
    }
    assert_eq!(graph.get_evaluation_order(&set(&[1, 2, 3])), vec![1, 2, 3]);

    let mut graph = DependencyGraph::new();
    graph.update_dependencies(4, set(&[]), false);
    graph.update_dependencies(9, set(&[]), false);
    graph.update_dependencies(2, set(&[9]), false);
    assert_eq!(graph.get_evaluation_order(&set(&[2, 4, 9])), vec![4, 9, 2]);

    let mut graph = DependencyGraph::new();
    graph.update_dependencies(2, set(&[1]), false);
    graph.update_dependencies(3, set(&[1, 2]), false);
    assert_eq!(graph.get_evaluation_order(&set(&[1, 2, 3])), vec![1, 2, 3]);
}

#[test]
fn stats_count_the_graph() {
    let mut graph = DependencyGraph::new();
    let empty = graph.stats();
    assert_eq!(
        (empty.note_count, empty.total_dependencies, empty.max_dependencies, empty.max_dependents, empty.base_note_dependents),
        (0, 0, 0, 0, 0)
    );
    graph.update_dependencies(2, set(&[1]), true);
    graph.update_dependencies(3, set(&[1, 2]), false);
    graph.update_dependencies(4, set(&[1, 2, 3]), true);
    let stats = graph.stats();
    assert_eq!(stats.note_count, 3);
    assert_eq!(stats.total_dependencies, 6);
    assert_eq!(stats.max_dependencies, 3);
    assert_eq!(stats.max_dependents, 3);
    assert_eq!(stats.base_note_dependents, 2);
}

#[test]
fn sets_of_ids() {
    let ids = set(&[5, 1, 9]);
    let mut listed = members(&ids);
    listed.sort();
    assert_eq!(listed, vec![1, 5, 9]);
    assert_eq!(copy_set(&ids), ids);
    assert_eq!(set_of(&[9, 5, 1, 5]), ids);
    assert_eq!(sort_ascending(&vec![5, 1, 9, 1]), vec![1, 1, 5, 9]);
    assert_eq!(sort_ascending(&vec![]), Vec::<u32>::new());
}

#[test]
fn one_cycle_is_reported_once() {
    let mut graph = DependencyGraph::new();
    graph.update_dependencies(1, set(&[3]), false);
    graph.update_dependencies(2, set(&[1]), false);
    graph.update_dependencies(3, set(&[2]), false);
    let cycles = graph.detect_cycles();
    assert_eq!(cycles.len(), 1);
    let cycle = &cycles[0];
    assert!(
        *cycle == vec![1, 3, 2, 1] || *cycle == vec![3, 2, 1, 3] || *cycle == vec![2, 1, 3, 2],
        "{:?}",
        cycle
    );
}

#[test]
fn cycles_hold_no_note_twice_and_close_on_different_edges() {
    let mut graph = DependencyGraph::new();
    graph.update_dependencies(1, set(&[2, 3]), false);
    graph.update_dependencies(2, set(&[1, 3]), false);
    graph.update_dependencies(3, set(&[1]), false);
    graph.update_dependencies(4, set(&[4]), false);
    let cycles = graph.detect_cycles();
    let mut closing: Vec<(u32, u32)> = Vec::new();
    for cycle in &cycles {
        assert!(cycle.len() >= 2);
        assert_eq!(cycle.first(), cycle.last());
        let mut inner: Vec<u32> = cycle[..cycle.len() - 1].to_vec();
        inner.sort();
        inner.dedup();
        assert_eq!(inner.len(), cycle.len() - 1);
        for pair in cycle.windows(2) {
            assert!(graph.get_dependencies(pair[0]).contains(&pair[1]));
        }
        closing.push((cycle[cycle.len() - 2], cycle[cycle.len() - 1]));
    }
    assert!(cycles.contains(&vec![4, 4]));
    let count = closing.len();
    closing.sort();
    closing.dedup();
    assert_eq!(closing.len(), count);
    for edge in &closing {
        let mut targets = graph.get_dependencies(edge.0);
        targets.remove(&edge.1);
        graph.update_dependencies(edge.0, targets, false);
    }
    assert!(graph.detect_cycles().is_empty());
}
