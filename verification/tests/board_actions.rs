use grid_pathfinder::board::{
    begin_visualization, clear_traversed_nodes, create_nodes, end_of_visualization,
    handle_clear_traversed_nodes, handle_reset_board, mouse_action_permitted, reset_board,
    BoardStatus,
};
use grid_pathfinder::grid_actions::{GridAction, GridState};
use grid_pathfinder::utils::{
    drop_first_and_last, get_click_button, get_modifier_key, get_move_button, is_node_toggleable,
    set_end_node, set_node_off, set_node_on, set_node_status, set_start_node, Button,
    ButtonWithModifierKey, ModifierKey,
};
use grid_pathfinder::visualizer::{build_visit_batches, BATCH_DELAY_MS, VISIT_BATCH_SIZE};
use grid_pathfinder::NodeStatus;

#[test]
fn click_buttons_decode() {
    assert_eq!(get_click_button(0), Button::Left);
    assert_eq!(get_click_button(2), Button::Right);
    assert_eq!(get_click_button(1), Button::Other);
    assert_eq!(get_click_button(-1), Button::Other);
}

#[test]
fn move_buttons_decode() {
    assert_eq!(get_move_button(1), Button::Left);
    assert_eq!(get_move_button(2), Button::Right);
    assert_eq!(get_move_button(0), Button::Other);
    assert_eq!(get_move_button(4), Button::Other);
}

#[test]
fn modifier_keys_decode() {
    assert_eq!(get_modifier_key(true, false), ModifierKey::Ctrl);
    assert_eq!(get_modifier_key(true, true), ModifierKey::Ctrl);
    assert_eq!(get_modifier_key(false, true), ModifierKey::Shift);
    assert_eq!(get_modifier_key(false, false), ModifierKey::NoModifier);
}

#[test]
fn node_status_setters() {
    let mut status = NodeStatus::On;
    set_node_status(&mut status, NodeStatus::Visited);
    assert_eq!(status, NodeStatus::Visited);
    set_node_on(&mut status);
    assert_eq!(status, NodeStatus::On);
    set_node_off(&mut status);
    assert_eq!(status, NodeStatus::Off);
}

#[test]
fn only_plain_cells_are_toggleable() {
    assert!(is_node_toggleable(&NodeStatus::On));
    assert!(is_node_toggleable(&NodeStatus::Off));
    assert!(!is_node_toggleable(&NodeStatus::Start));
    assert!(!is_node_toggleable(&NodeStatus::End));
    assert!(!is_node_toggleable(&NodeStatus::Visited));
    assert!(!is_node_toggleable(&NodeStatus::Path));
}

#[test]
fn drop_first_and_last_trims_two() {
    let mut values = vec![1usize, 2, 3, 4, 5];
    drop_first_and_last(&mut values);
    assert_eq!(values, vec![2, 3, 4]);

    let mut pair = vec![7usize, 8];
    drop_first_and_last(&mut pair);
    assert!(pair.is_empty());

    let mut single = vec![9usize];
    drop_first_and_last(&mut single);
    assert!(single.is_empty());
}

#[test]
fn start_marker_moves_and_old_cell_reverts() {
    let mut nodes = vec![NodeStatus::Start, NodeStatus::On, NodeStatus::On];
    let mut current = Some(0usize);
    set_start_node(&mut nodes, 2, &mut current);
    assert_eq!(
        nodes,
        vec![NodeStatus::On, NodeStatus::On, NodeStatus::Start]
    );
    assert_eq!(current, Some(2));
}

#[test]
fn end_marker_moves_and_old_cell_reverts() {
    let mut nodes = vec![NodeStatus::On, NodeStatus::End, NodeStatus::On];
    let mut current = Some(1usize);
    set_end_node(&mut nodes, 0, &mut current);
    assert_eq!(nodes, vec![NodeStatus::End, NodeStatus::On, NodeStatus::On]);
    assert_eq!(current, Some(0));
}

#[test]
fn grid_action_combines_button_and_modifier() {
    let action = GridAction::new(Button::Left, ModifierKey::Ctrl, 4);
    assert_eq!(action.node_id, 4);
    assert!(matches!(
        action.button_with_modifier,
        ButtonWithModifierKey::Left(ModifierKey::Ctrl)
    ));

    let action = GridAction::new(Button::Right, ModifierKey::Shift, 1);
    assert!(matches!(
        action.button_with_modifier,
        ButtonWithModifierKey::Right()
    ));

    let action = GridAction::new(Button::Other, ModifierKey::NoModifier, 0);
    assert!(matches!(
        action.button_with_modifier,
        ButtonWithModifierKey::Other()
    ));
}

#[test]
fn ctrl_click_paints_an_obstacle() {
    let nodes = vec![NodeStatus::On, NodeStatus::On];
    let mut state = GridState::new(nodes, Some(0), Some(1));
    let action = GridAction::new(Button::Left, ModifierKey::Ctrl, 1);
    action.trigger_node(&mut state);
    assert_eq!(state.nodes[1], NodeStatus::Off);

    let action = GridAction::new(Button::Left, ModifierKey::Shift, 1);
    action.trigger_node(&mut state);
    assert_eq!(state.nodes[1], NodeStatus::On);
}

#[test]
fn bare_left_click_moves_start_right_click_moves_end() {
    let nodes = vec![
        NodeStatus::Start,
        NodeStatus::On,
        NodeStatus::On,
        NodeStatus::End,
    ];
    let mut state = GridState::new(nodes, Some(0), Some(3));

    let action = GridAction::new(Button::Left, ModifierKey::NoModifier, 1);
    action.trigger_node(&mut state);
    assert_eq!(state.nodes[0], NodeStatus::On);
    assert_eq!(state.nodes[1], NodeStatus::Start);
    assert_eq!(state.current_start_node_id, Some(1));

    let action = GridAction::new(Button::Right, ModifierKey::NoModifier, 2);
    action.trigger_node(&mut state);
    assert_eq!(state.nodes[3], NodeStatus::On);
    assert_eq!(state.nodes[2], NodeStatus::End);
    assert_eq!(state.current_end_node_id, Some(2));
}

#[test]
fn marker_cells_reject_painting() {
    let nodes = vec![NodeStatus::Start, NodeStatus::End];
    let mut state = GridState::new(nodes, Some(0), Some(1));
    let action = GridAction::new(Button::Left, ModifierKey::Ctrl, 0);
    action.trigger_node(&mut state);
    assert_eq!(state.nodes[0], NodeStatus::Start);
    assert_eq!(state.current_start_node_id, Some(0));
}

#[test]
fn fresh_board_is_all_active() {
    let nodes = create_nodes(9);
    assert_eq!(nodes.len(), 9);
    assert!(nodes.iter().all(|s| *s == NodeStatus::On));
}

#[test]
fn clearing_reverts_only_search_annotations() {
    let mut nodes = vec![
        NodeStatus::Start,
        NodeStatus::Visited,
        NodeStatus::Path,
        NodeStatus::Off,
        NodeStatus::End,
    ];
    clear_traversed_nodes(&mut nodes);
    assert_eq!(
        nodes,
        vec![
            NodeStatus::Start,
            NodeStatus::On,
            NodeStatus::On,
            NodeStatus::Off,
            NodeStatus::End,
        ]
    );
}

#[test]
fn reset_rebuilds_board_with_markers_at_corners() {
    let mut nodes = vec![
        NodeStatus::Visited,
        NodeStatus::Off,
        NodeStatus::Path,
        NodeStatus::Start,
    ];
    let mut start = Some(3usize);
    let mut end = None;
    reset_board(&mut nodes, &mut start, &mut end);
    assert_eq!(
        nodes,
        vec![
            NodeStatus::Start,
            NodeStatus::On,
            NodeStatus::On,
            NodeStatus::End,
        ]
    );
    assert_eq!(start, Some(0));
    assert_eq!(end, Some(3));
}

#[test]
fn run_guard_rejects_second_run_in_flight() {
    let mut status = BoardStatus::NotVisualized;
    assert!(begin_visualization(&mut status));
    assert_eq!(status, BoardStatus::Visualizing);

    // a second request while playback runs is dropped and changes nothing
    assert!(!begin_visualization(&mut status));
    assert_eq!(status, BoardStatus::Visualizing);

    end_of_visualization(&mut status);
    assert_eq!(status, BoardStatus::Visualized);

    // a run may not start over a displayed result either
    assert!(!begin_visualization(&mut status));
    assert_eq!(status, BoardStatus::Visualized);
}

#[test]
fn mouse_actions_blocked_during_and_after_playback() {
    assert!(mouse_action_permitted(&BoardStatus::Empty));
    assert!(mouse_action_permitted(&BoardStatus::NotVisualized));
    assert!(!mouse_action_permitted(&BoardStatus::Visualizing));
    assert!(!mouse_action_permitted(&BoardStatus::Visualized));
}

#[test]
fn reset_request_guarded_by_phase() {
    let mut nodes = vec![NodeStatus::Visited, NodeStatus::On];
    let mut start = None;
    let mut end = None;
    let mut status = BoardStatus::Visualizing;
    handle_reset_board(&mut nodes, &mut start, &mut end, &mut status);
    assert_eq!(nodes, vec![NodeStatus::Visited, NodeStatus::On]);
    assert_eq!(status, BoardStatus::Visualizing);

    let mut status = BoardStatus::Visualized;
    handle_reset_board(&mut nodes, &mut start, &mut end, &mut status);
    assert_eq!(nodes, vec![NodeStatus::Start, NodeStatus::End]);
    assert_eq!(status, BoardStatus::Empty);
}

#[test]
fn clear_request_guarded_by_phase() {
    let mut nodes = vec![NodeStatus::Visited, NodeStatus::On];
    let mut status = BoardStatus::Visualizing;
    handle_clear_traversed_nodes(&mut nodes, &mut status);
    assert_eq!(nodes, vec![NodeStatus::Visited, NodeStatus::On]);
    assert_eq!(status, BoardStatus::Visualizing);

    let mut status = BoardStatus::Visualized;
    handle_clear_traversed_nodes(&mut nodes, &mut status);
    assert_eq!(nodes, vec![NodeStatus::On, NodeStatus::On]);
    assert_eq!(status, BoardStatus::NotVisualized);
}

#[test]
fn visit_batches_split_in_tens() {
    assert_eq!(VISIT_BATCH_SIZE, 10);
    assert_eq!(BATCH_DELAY_MS, 5);

    let cells: Vec<usize> = (0..25).collect();
    let batches = build_visit_batches(&cells);
    assert_eq!(batches.len(), 3);
    assert_eq!(batches[0], (0..10).collect::<Vec<usize>>());
    assert_eq!(batches[1], (10..20).collect::<Vec<usize>>());
    assert_eq!(batches[2], (20..25).collect::<Vec<usize>>());

    let empty: Vec<usize> = Vec::new();
    assert!(build_visit_batches(&empty).is_empty());

    let exact: Vec<usize> = (0..10).collect();
    let batches = build_visit_batches(&exact);
    assert_eq!(batches.len(), 1);
    assert_eq!(batches[0], exact);
}
