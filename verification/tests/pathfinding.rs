use grid_pathfinder::adjacency_list::{create_adjacency_list, is_node_on};
use grid_pathfinder::dijkstras::DijkstrasTraversal;
use grid_pathfinder::NodeStatus;

fn get_mock_grid() -> Vec<usize> {
    vec![
        2, 1, 0, 0, 1, 1, 0, 0, 0, 0, 0, 0, 0, 0, 1, 1, 0, 0, 0, 0, 0, 1, 0, 0, 1, 1, 1, 1, 0, 0,
        0, 1, 0, 0, 1, 0, 0, 0, 1, 0, 0, 0, 1, 0, 1, 1, 0, 0, 0, 0, 0, 1, 1, 0, 1, 1, 0, 0, 1, 0,
        0, 0, 0, 0, 0, 0, 0, 0, 0, 0, 0, 0, 0, 0, 0, 1, 0, 0, 0, 0, 0, 1, 0, 0, 1, 1, 0, 0, 0, 0,
        0, 1, 0, 0, 1, 1, 1, 0, 0, 3,
    ]
}

fn get_mock_grid_with_unreachable_end() -> Vec<usize> {
    vec![
        0, 1, 0, 0, 1, 1, 0, 0, 0, 0, 0, 0, 0, 0, 1, 1, 0, 0, 0, 0, 0, 1, 0, 0, 1, 1, 1, 1, 0, 0,
        0, 1, 0, 0, 1, 0, 0, 0, 1, 0, 0, 0, 1, 0, 1, 1, 0, 0, 0, 0, 0, 1, 1, 0, 1, 1, 0, 0, 1, 0,
        0, 0, 0, 0, 0, 1, 0, 0, 0, 0, 0, 0, 0, 0, 0, 1, 0, 0, 0, 0, 0, 1, 0, 0, 1, 1, 0, 0, 0, 0,
        0, 1, 0, 0, 1, 1, 1, 0, 0, 0,
    ]
}

fn get_mock_nodes(mock_grid: Vec<usize>) -> Vec<NodeStatus> {
    mock_grid
        .iter()
        .map(|node| match node {
            0 => NodeStatus::On,
            1 => NodeStatus::Off,
            2 => NodeStatus::Start,
            3 => NodeStatus::End,
            _ => NodeStatus::On,
        })
        .collect()
}

#[test]
fn create_adjacency_list_returns_correct_list() {
    let mock_grid = get_mock_grid();
    let mock_node_statuses = get_mock_nodes(mock_grid);

    let adjacency_list = create_adjacency_list(&mock_node_statuses);

    let number_of_expected_edges_list = vec![
        1, 3, 2, 2, 1, 1, 2, 3, 3, 2, 3, 2, 4, 3, 1, 1, 2, 3, 4, 3, 2, 3, 3, 3, 1, 1, 2, 3, 2,
        3, 2, 3, 2, 3, 2, 1, 3, 2, 4, 2, 3, 1, 3, 2, 1, 2, 3, 4, 2, 3, 2, 3, 2, 2, 2, 2, 3, 3,
        4, 2, 3, 3, 3, 4, 3, 2, 4, 4, 3, 3, 3, 3, 4, 4, 2, 3, 3, 4, 4, 3, 2, 3, 3, 3, 2, 1, 2,
        4, 4, 3, 1, 2, 2, 2, 1, 0, 2, 2, 3, 2,
    ];

    assert_eq!(adjacency_list.len(), 100);

    for (i, &expected_edges) in number_of_expected_edges_list.iter().enumerate() {
        assert!(
            adjacency_list[i].edges.len() == expected_edges,
            "Mismatch at index {}: expected {} edges, but got {}",
            i,
            expected_edges,
            adjacency_list[i].edges.len()
        );
    }
}

#[test]
fn correctly_identifies_off_nodes() {
    let mock_grid = get_mock_grid();
    let mock_node_statuses = get_mock_nodes(mock_grid);

    let first_row_expected_values = vec![
        true, false, true, true, false, false, true, true, true, true,
    ];
    let last_row_expected_values = vec![
        true, false, true, true, false, false, false, true, true, true,
    ];

    for i in 0..10 {
        assert_eq!(
            is_node_on(i, &mock_node_statuses),
            first_row_expected_values[i]
        );
    }

    for i in 0..10 {
        assert_eq!(
            is_node_on(i + 90, &mock_node_statuses),
            last_row_expected_values[i]
        );
    }
}

#[test]
fn dijkstras_returns_correct_result() {
    let mock_grid = get_mock_grid();
    let mock_node_statuses = get_mock_nodes(mock_grid);
    let adjacency_list = create_adjacency_list(&mock_node_statuses);
    let expected_distance = 22;
    let start_node_id = 0;
    let end_node_id = 8;

    let result = DijkstrasTraversal::dijkstras(adjacency_list, start_node_id, end_node_id);

    assert_eq!(result.distance, expected_distance);
}

#[test]
fn get_path_returns_correct_path() {
    let mock_grid = get_mock_grid();
    let mock_node_statuses = get_mock_nodes(mock_grid);
    let num_expected_nodes = 21;
    let expected_path = vec![
        10, 20, 30, 40, 50, 60, 61, 62, 63, 64, 65, 66, 56, 46, 47, 48, 49, 39, 29, 19, 9,
    ];
    let expected_visited_ordered = [
        10, 20, 11, 12, 30, 22, 40, 2, 13, 3, 41, 50, 32, 23, 33, 60, 70, 61, 43, 62, 53, 71,
        80, 90, 72, 63, 64, 82, 73, 92, 83, 74, 65, 66, 93, 76, 56, 67, 46, 68, 77, 57, 86, 69,
        87, 36, 78, 47, 35, 48, 88, 79, 59, 37, 97, 89, 49, 98, 39, 99, 29, 19, 28, 9, 18, 17,
    ];
    let start_node_id = 0;
    let end_node_id = 8;

    let result = DijkstrasTraversal::run(&mock_node_statuses, start_node_id, end_node_id);
    let path = result.get_path();
    let visited_ordered = result.get_traversed_nodes();

    assert_eq!(num_expected_nodes, path.len());
    assert_eq!(expected_path, path);
    expected_visited_ordered
        .iter()
        .enumerate()
        .for_each(|(index, &node_id)| {
            assert_eq!(node_id, visited_ordered[index]);
        });
}

#[test]
fn get_path_returns_empty_path_when_end_unreachable() {
    let mock_grid = get_mock_grid_with_unreachable_end();
    let mock_node_statuses = get_mock_nodes(mock_grid);

    let start_node_id = 0;
    let end_node_id = 8;

    let result = DijkstrasTraversal::run(&mock_node_statuses, start_node_id, end_node_id);
    let path = result.get_path();

    assert!(path.is_empty());
}

#[test]
fn unreachable_end_still_reports_visited_cells() {
    let mock_grid = get_mock_grid_with_unreachable_end();
    let mock_node_statuses = get_mock_nodes(mock_grid);

    let result = DijkstrasTraversal::run(&mock_node_statuses, 0, 8);
    let visited = result.get_traversed_nodes();

    // every cell the search settled lies on the grid and is passable
    assert!(!visited.is_empty());
    for &cell in visited.iter() {
        assert!(cell < 100);
        assert!(mock_node_statuses[cell] != NodeStatus::Off);
    }
}

#[test]
fn visit_order_covers_reachable_cells_when_end_unreachable() {
    let mock_node_statuses = get_mock_nodes(get_mock_grid_with_unreachable_end());
    let adjacency_list = create_adjacency_list(&mock_node_statuses);
    let result = DijkstrasTraversal::dijkstras(adjacency_list, 0, 8);
    assert_eq!(result.distance, usize::MAX);

    // breadth-first scan over the same topology gives the reachable set
    let adjacency_list = create_adjacency_list(&mock_node_statuses);
    let mut reachable = vec![false; 100];
    reachable[0] = true;
    let mut queue = std::collections::VecDeque::from(vec![0usize]);
    while let Some(cell) = queue.pop_front() {
        for edge in adjacency_list[cell].edges.iter() {
            if !reachable[edge.to] {
                reachable[edge.to] = true;
                queue.push_back(edge.to);
            }
        }
    }

    let settled: std::collections::HashSet<usize> =
        result.visited_ordered.iter().copied().collect();
    for cell in 0..100 {
        assert_eq!(
            reachable[cell],
            settled.contains(&cell),
            "cell {} reachable={} but settled={}",
            cell,
            reachable[cell],
            settled.contains(&cell)
        );
    }
}

#[test]
fn run_search_is_deterministic() {
    let mock_node_statuses = get_mock_nodes(get_mock_grid());

    let first = DijkstrasTraversal::run(&mock_node_statuses, 0, 8);
    let second = DijkstrasTraversal::run(&mock_node_statuses, 0, 8);

    assert_eq!(first.get_path(), second.get_path());
    assert_eq!(first.get_traversed_nodes(), second.get_traversed_nodes());

    let adjacency_first = create_adjacency_list(&mock_node_statuses);
    let adjacency_second = create_adjacency_list(&mock_node_statuses);
    let result_first = DijkstrasTraversal::dijkstras(adjacency_first, 0, 8);
    let result_second = DijkstrasTraversal::dijkstras(adjacency_second, 0, 8);
    assert_eq!(result_first.distance, result_second.distance);
}

#[test]
fn returned_path_steps_are_adjacent_and_passable() {
    let mock_node_statuses = get_mock_nodes(get_mock_grid());

    let result = DijkstrasTraversal::run(&mock_node_statuses, 0, 8);
    let path = result.get_path();
    assert!(!path.is_empty());

    // walk the full route including both markers
    let mut full = vec![0usize];
    full.extend(path.iter().copied());
    full.push(8);
    for window in full.windows(2) {
        let (a, b) = (window[0], window[1]);
        let adjacent = (a / 10 == b / 10 && (b == a + 1 || a == b + 1))
            || (a % 10 == b % 10 && (b == a + 10 || a == b + 10));
        assert!(adjacent, "cells {} and {} are not grid-adjacent", a, b);
        assert!(mock_node_statuses[b] != NodeStatus::Off);
    }
}

#[test]
fn start_equal_to_end_yields_empty_path() {
    let nodes = vec![NodeStatus::On];
    let result = DijkstrasTraversal::run(&nodes, 0, 0);
    assert!(result.get_path().is_empty());
    assert!(result.get_traversed_nodes().is_empty());
}

#[test]
fn adjacent_start_and_end_yield_empty_interior_path() {
    let nodes = vec![
        NodeStatus::Start,
        NodeStatus::End,
        NodeStatus::On,
        NodeStatus::On,
    ];
    let result = DijkstrasTraversal::run(&nodes, 0, 1);
    // distance 1: there is no cell strictly between the markers
    assert!(result.get_path().is_empty());
}

#[test]
fn two_by_two_grid_shortest_distance() {
    let nodes = vec![
        NodeStatus::Start,
        NodeStatus::On,
        NodeStatus::On,
        NodeStatus::End,
    ];
    let adjacency_list = create_adjacency_list(&nodes);
    let result = DijkstrasTraversal::dijkstras(adjacency_list, 0, 3);
    assert_eq!(result.distance, 2);

    let traversal = DijkstrasTraversal::run(&nodes, 0, 3);
    let path = traversal.get_path();
    assert_eq!(path.len(), 1);
    assert!(path[0] == 1 || path[0] == 2);
}

#[test]
fn fully_walled_start_reaches_nothing() {
    let nodes = vec![
        NodeStatus::Start,
        NodeStatus::Off,
        NodeStatus::Off,
        NodeStatus::End,
    ];
    let adjacency_list = create_adjacency_list(&nodes);
    let result = DijkstrasTraversal::dijkstras(adjacency_list, 0, 3);
    assert_eq!(result.distance, usize::MAX);

    let traversal = DijkstrasTraversal::run(&nodes, 0, 3);
    assert!(traversal.get_path().is_empty());
    assert!(traversal.get_traversed_nodes().is_empty());
}
