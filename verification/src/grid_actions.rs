//! Decoded pointer actions against the grid: which cell was touched, with
//! which button and modifier, and what that does to the cell states and the
//! two markers.

use crate::utils::{
    is_node_toggleable, set_end_node, set_node_off, set_node_on, set_start_node, Button,
    ButtonWithModifierKey, ModifierKey,
};
use crate::NodeStatus;
use vstd::prelude::*;

verus! {

/// The grid state that a pointer action may change: the cell states and the
/// recorded positions of the two markers.
pub struct GridState {
    pub nodes: Vec<NodeStatus>,
    pub current_start_node_id: Option<usize>,
    pub current_end_node_id: Option<usize>,
}

impl GridState {
    /// Bundles the pieces of grid state.
    pub fn new(
        nodes: Vec<NodeStatus>,
        current_start_node_id: Option<usize>,
        current_end_node_id: Option<usize>,
    ) -> (r: GridState)
        ensures
            r.nodes@ == nodes@,
            r.current_start_node_id == current_start_node_id,
            r.current_end_node_id == current_end_node_id,
    {
        GridState { nodes, current_start_node_id, current_end_node_id }
    }
}

/// One decoded pointer action: the touched cell and the qualified button.
pub struct GridAction {
    pub node_id: usize,
    pub button_with_modifier: ButtonWithModifierKey,
}

impl GridAction {
    /// Combines a decoded button and modifier with the touched cell. The
    /// modifier qualifies only the left button.
    pub fn new(button: Button, modifier_key: ModifierKey, node_id: usize) -> (r: GridAction)
        ensures
            r.node_id == node_id,
            r.button_with_modifier == (match button {
                Button::Left => ButtonWithModifierKey::Left(modifier_key),
                Button::Right => ButtonWithModifierKey::Right(),
                Button::Other => ButtonWithModifierKey::Other(),
            }),
    {
        let button_with_modifier = match button {
            Button::Left => ButtonWithModifierKey::Left(modifier_key),
            Button::Right => ButtonWithModifierKey::Right(),
            Button::Other => ButtonWithModifierKey::Other(),
        };
        GridAction { node_id, button_with_modifier }
    }

    /// Applies the action to the touched cell. A cell that is not plain
    /// `On`/`Off` rejects the touch. Control paints an obstacle, shift
    /// clears one, a bare left click moves the start marker, a right click
    /// moves the end marker, and any other button does nothing.
    pub fn trigger_node(&self, grid_state: &mut GridState)
        requires
            self.node_id < old(grid_state).nodes@.len(),
        ensures
            final(grid_state).nodes@.len() == old(grid_state).nodes@.len(),
            !(old(grid_state).nodes@[self.node_id as int] == NodeStatus::On || old(
                grid_state,
            ).nodes@[self.node_id as int] == NodeStatus::Off) ==> *final(grid_state) == *old(
                grid_state,
            ),
            (old(grid_state).nodes@[self.node_id as int] == NodeStatus::On || old(
                grid_state,
            ).nodes@[self.node_id as int] == NodeStatus::Off) ==> (match self
                .button_with_modifier {
                ButtonWithModifierKey::Left(ModifierKey::Ctrl) => {
                    &&& final(grid_state).nodes@ == old(grid_state).nodes@.update(
                        self.node_id as int,
                        NodeStatus::Off,
                    )
                    &&& final(grid_state).current_start_node_id == old(
                        grid_state,
                    ).current_start_node_id
                    &&& final(grid_state).current_end_node_id == old(
                        grid_state,
                    ).current_end_node_id
                },
                ButtonWithModifierKey::Left(ModifierKey::Shift) => {
                    &&& final(grid_state).nodes@ == old(grid_state).nodes@.update(
                        self.node_id as int,
                        NodeStatus::On,
                    )
                    &&& final(grid_state).current_start_node_id == old(
                        grid_state,
                    ).current_start_node_id
                    &&& final(grid_state).current_end_node_id == old(
                        grid_state,
                    ).current_end_node_id
                },
                ButtonWithModifierKey::Left(ModifierKey::NoModifier) => {
                    &&& final(grid_state).nodes@ == (match old(grid_state).current_start_node_id {
                        Some(id) => (if id < old(grid_state).nodes@.len() {
                            old(grid_state).nodes@.update(id as int, NodeStatus::On)
                        } else {
                            old(grid_state).nodes@
                        }),
                        None => old(grid_state).nodes@,
                    }).update(self.node_id as int, NodeStatus::Start)
                    &&& final(grid_state).current_start_node_id == Some(self.node_id)
                    &&& final(grid_state).current_end_node_id == old(
                        grid_state,
                    ).current_end_node_id
                },
                ButtonWithModifierKey::Right() => {
                    &&& final(grid_state).nodes@ == (match old(grid_state).current_end_node_id {
                        Some(id) => (if id < old(grid_state).nodes@.len() {
                            old(grid_state).nodes@.update(id as int, NodeStatus::On)
                        } else {
                            old(grid_state).nodes@
                        }),
                        None => old(grid_state).nodes@,
                    }).update(self.node_id as int, NodeStatus::End)
                    &&& final(grid_state).current_start_node_id == old(
                        grid_state,
                    ).current_start_node_id
                    &&& final(grid_state).current_end_node_id == Some(self.node_id)
                },
                ButtonWithModifierKey::Other() => *final(grid_state) == *old(grid_state),
            }),
    {
        if !is_node_toggleable(&grid_state.nodes[self.node_id]) {
            return ;
        }
        match self.button_with_modifier {
            ButtonWithModifierKey::Left(ModifierKey::Ctrl) => {
                set_node_off(&mut grid_state.nodes[self.node_id]);
            },
            ButtonWithModifierKey::Left(ModifierKey::Shift) => {
                set_node_on(&mut grid_state.nodes[self.node_id]);
            },
            ButtonWithModifierKey::Left(ModifierKey::NoModifier) => {
                set_start_node(
                    &mut grid_state.nodes,
                    self.node_id,
                    &mut grid_state.current_start_node_id,
                );
            },
            ButtonWithModifierKey::Right() => {
                set_end_node(
                    &mut grid_state.nodes,
                    self.node_id,
                    &mut grid_state.current_end_node_id,
                );
            },
            ButtonWithModifierKey::Other() => {
                return ;
            },
        }
    }
}

} // verus!
