//! The run coordinator: board-wide state transitions and the single-flight
//! guard over visualization runs.
//!
//! The board is always in exactly one of four phases. A new run may begin
//! only while no run plays back; board mutations are likewise refused while
//! a run plays back or its result is still shown. A request that arrives in
//! a refused phase is dropped silently and leaves every piece of state
//! untouched.

use crate::utils::{set_end_node, set_start_node};
use crate::NodeStatus;
use vstd::prelude::*;

verus! {

/// The phase of the board.
#[derive(Clone, Copy, Debug, PartialEq, Eq, Structural)]
pub enum BoardStatus {
    Empty,
    NotVisualized,
    Visualizing,
    Visualized,
}

/// A fresh board: every cell active.
pub fn create_nodes(grid_size: usize) -> (r: Vec<NodeStatus>)
    ensures
        r@.len() == grid_size,
        forall|i: int| 0 <= i < grid_size ==> r@[i] == NodeStatus::On,
{
    let mut nodes: Vec<NodeStatus> = Vec::new();
    let mut i: usize = 0;
    while i < grid_size
        invariant
            i <= grid_size,
            nodes@.len() == i,
            forall|j: int| 0 <= j < i ==> nodes@[j] == NodeStatus::On,
        decreases grid_size - i,
    {
        nodes.push(NodeStatus::On);
        i = i + 1;
    }
    nodes
}

/// Reverts the transient search annotations: every `Visited` or `Path` cell
/// becomes `On` again; all other cells keep their state.
pub fn clear_traversed_nodes(nodes: &mut Vec<NodeStatus>)
    ensures
        final(nodes)@.len() == old(nodes)@.len(),
        forall|i: int|
            0 <= i < old(nodes)@.len() ==> final(nodes)@[i] == (if old(nodes)@[i]
                == NodeStatus::Visited || old(nodes)@[i] == NodeStatus::Path {
                NodeStatus::On
            } else {
                old(nodes)@[i]
            }),
{
    let ghost orig = nodes@;
    let n = nodes.len();
    let mut i: usize = 0;
    while i < n
        invariant
            i <= n,
            nodes@.len() == n,
            n == orig.len(),
            forall|j: int|
                0 <= j < i ==> nodes@[j] == (if orig[j] == NodeStatus::Visited || orig[j]
                    == NodeStatus::Path {
                    NodeStatus::On
                } else {
                    orig[j]
                }),
            forall|j: int| i <= j < n ==> nodes@[j] == orig[j],
        decreases n - i,
    {
        let node_status = nodes[i];
        if node_status == NodeStatus::Visited || node_status == NodeStatus::Path {
            nodes[i] = NodeStatus::On;
        }
        i = i + 1;
    }
}

/// Wipes the board: every cell becomes `On`, then the start marker moves to
/// the first cell and the end marker to the last one.
pub fn reset_board(
    nodes: &mut Vec<NodeStatus>,
    current_start_node_id: &mut Option<usize>,
    current_end_node_id: &mut Option<usize>,
)
    requires
        old(nodes)@.len() >= 1,
    ensures
        final(nodes)@.len() == old(nodes)@.len(),
        final(nodes)@ == Seq::new(old(nodes)@.len(), |i: int| NodeStatus::On).update(
            0,
            NodeStatus::Start,
        ).update(old(nodes)@.len() - 1, NodeStatus::End),
        *final(current_start_node_id) == Some(0usize),
        *final(current_end_node_id) == Some((old(nodes)@.len() - 1) as usize),
{
    let n = nodes.len();
    let mut i: usize = 0;
    while i < n
        invariant
            i <= n,
            nodes@.len() == n,
            forall|j: int| 0 <= j < i ==> nodes@[j] == NodeStatus::On,
            forall|j: int| i <= j < n ==> nodes@[j] == old(nodes)@[j],
        decreases n - i,
    {
        nodes[i] = NodeStatus::On;
        i = i + 1;
    }
    proof {
        assert(nodes@ =~= Seq::new(old(nodes)@.len(), |i: int| NodeStatus::On));
    }
    *current_start_node_id = None;
    *current_end_node_id = None;
    set_start_node(nodes, 0, current_start_node_id);
    set_end_node(nodes, n - 1, current_end_node_id);
}

/// May the board be painted or its markers moved? Not while a run plays back
/// or its result is still displayed.
pub fn mouse_action_permitted(board_status: &BoardStatus) -> (r: bool)
    ensures
        r == (*board_status != BoardStatus::Visualizing && *board_status
            != BoardStatus::Visualized),
{
    match board_status {
        BoardStatus::Visualizing | BoardStatus::Visualized => false,
        _ => true,
    }
}

/// Claims the single-flight guard for a new run. The claim succeeds only
/// from `Empty` or `NotVisualized`; a request during `Visualizing` or
/// `Visualized` is refused and the phase is left untouched, so a second run
/// can never start while one is in flight.
pub fn begin_visualization(board_status: &mut BoardStatus) -> (accepted: bool)
    ensures
        accepted == (*old(board_status) != BoardStatus::Visualizing && *old(board_status)
            != BoardStatus::Visualized),
        accepted ==> *final(board_status) == BoardStatus::Visualizing,
        !accepted ==> *final(board_status) == *old(board_status),
{
    match *board_status {
        BoardStatus::Visualizing | BoardStatus::Visualized => false,
        _ => {
            *board_status = BoardStatus::Visualizing;
            true
        },
    }
}

/// Releases the single-flight guard once playback has finished: the board
/// now shows a completed run.
pub fn end_of_visualization(board_status: &mut BoardStatus)
    ensures
        *final(board_status) == BoardStatus::Visualized,
{
    *board_status = BoardStatus::Visualized;
}

/// Handles a board-reset request: refused while a run plays back or the
/// board is already empty; otherwise the board is wiped and the phase
/// becomes `Empty`.
pub fn handle_reset_board(
    nodes: &mut Vec<NodeStatus>,
    current_start_node_id: &mut Option<usize>,
    current_end_node_id: &mut Option<usize>,
    board_status: &mut BoardStatus,
)
    requires
        old(nodes)@.len() >= 1,
    ensures
        (*old(board_status) == BoardStatus::Visualizing || *old(board_status)
            == BoardStatus::Empty) ==> {
            &&& final(nodes)@ == old(nodes)@
            &&& *final(current_start_node_id) == *old(current_start_node_id)
            &&& *final(current_end_node_id) == *old(current_end_node_id)
            &&& *final(board_status) == *old(board_status)
        },
        (*old(board_status) != BoardStatus::Visualizing && *old(board_status)
            != BoardStatus::Empty) ==> {
            &&& final(nodes)@ == Seq::new(old(nodes)@.len(), |i: int| NodeStatus::On).update(
                0,
                NodeStatus::Start,
            ).update(old(nodes)@.len() - 1, NodeStatus::End)
            &&& *final(current_start_node_id) == Some(0usize)
            &&& *final(current_end_node_id) == Some((old(nodes)@.len() - 1) as usize)
            &&& *final(board_status) == BoardStatus::Empty
        },
{
    match *board_status {
        BoardStatus::Visualizing | BoardStatus::Empty => {
        },
        _ => {
            reset_board(nodes, current_start_node_id, current_end_node_id);
            *board_status = BoardStatus::Empty;
        },
    }
}

/// Handles a clear-path request: only a board that shows a completed run
/// has anything to clear; then the search annotations revert to `On` and
/// the phase returns to `NotVisualized`.
pub fn handle_clear_traversed_nodes(nodes: &mut Vec<NodeStatus>, board_status: &mut BoardStatus)
    ensures
        *old(board_status) != BoardStatus::Visualized ==> {
            &&& final(nodes)@ == old(nodes)@
            &&& *final(board_status) == *old(board_status)
        },
        *old(board_status) == BoardStatus::Visualized ==> {
            &&& final(nodes)@.len() == old(nodes)@.len()
            &&& forall|i: int|
                0 <= i < old(nodes)@.len() ==> final(nodes)@[i] == (if old(nodes)@[i]
                    == NodeStatus::Visited || old(nodes)@[i] == NodeStatus::Path {
                    NodeStatus::On
                } else {
                    old(nodes)@[i]
                })
            &&& *final(board_status) == BoardStatus::NotVisualized
        },
{
    match *board_status {
        BoardStatus::Visualizing | BoardStatus::NotVisualized | BoardStatus::Empty => {
        },
        _ => {
            clear_traversed_nodes(nodes);
            *board_status = BoardStatus::NotVisualized;
        },
    }
}

} // verus!
