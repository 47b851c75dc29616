//! Small helpers around cell state: decoding pointer input that the shell
//! has already reduced to plain values, toggling cell states, moving the
//! start and end markers, and trimming the visit order.

use crate::NodeStatus;
use vstd::prelude::*;

verus! {

/// Which pointer button acted.
#[derive(Clone, Copy, Debug, PartialEq, Eq, Structural)]
pub enum Button {
    Left,
    Right,
    Other,
}

/// Which modifier key was held.
#[derive(Clone, Copy, Debug, PartialEq, Eq, Structural)]
pub enum ModifierKey {
    Ctrl,
    Shift,
    NoModifier,
}

/// Whether the pointer clicked or moved.
#[derive(Clone, Copy, Debug, PartialEq, Eq, Structural)]
pub enum MouseAction {
    Click,
    Move,
}

/// A button together with the modifier that qualifies it.
#[derive(Clone, Copy, Debug, PartialEq, Eq, Structural)]
pub enum ButtonWithModifierKey {
    Left(ModifierKey),
    Right(),
    Other(),
}

/// Decodes the `button` field of a click event: 0 is the left button, 2 the
/// right one.
pub fn get_click_button(button: i16) -> (r: Button)
    ensures
        r == (if button == 0 {
            Button::Left
        } else if button == 2 {
            Button::Right
        } else {
            Button::Other
        }),
{
    match button {
        0 => Button::Left,
        2 => Button::Right,
        _ => Button::Other,
    }
}

/// Decodes the `buttons` bit field of a move event: 1 means the left button
/// is held, 2 the right one.
pub fn get_move_button(buttons: u16) -> (r: Button)
    ensures
        r == (if buttons == 1 {
            Button::Left
        } else if buttons == 2 {
            Button::Right
        } else {
            Button::Other
        }),
{
    match buttons {
        1 => Button::Left,
        2 => Button::Right,
        _ => Button::Other,
    }
}

/// Decodes the modifier keys of an event; control wins over shift.
pub fn get_modifier_key(ctrl_key: bool, shift_key: bool) -> (r: ModifierKey)
    ensures
        r == (if ctrl_key {
            ModifierKey::Ctrl
        } else if shift_key {
            ModifierKey::Shift
        } else {
            ModifierKey::NoModifier
        }),
{
    match ctrl_key {
        true => ModifierKey::Ctrl,
        false => match shift_key {
            true => ModifierKey::Shift,
            false => ModifierKey::NoModifier,
        },
    }
}

/// Overwrites one cell's state.
pub fn set_node_status(node_status_map_entry: &mut NodeStatus, new_status: NodeStatus)
    ensures
        *final(node_status_map_entry) == new_status,
{
    *node_status_map_entry = new_status;
}

/// Removes the first and the last element: a sequence of length `k >= 2`
/// keeps exactly its middle `k - 2` elements, and a single element vanishes.
pub fn drop_first_and_last<T>(vec: &mut Vec<T>)
    requires
        old(vec)@.len() >= 1,
    ensures
        old(vec)@.len() >= 2 ==> final(vec)@ == old(vec)@.subrange(1, old(vec)@.len() - 1),
        old(vec)@.len() == 1 ==> final(vec)@ == Seq::<T>::empty(),
        final(vec)@.len() == (if old(vec)@.len() >= 2 {
            old(vec)@.len() - 2
        } else {
            0
        }),
{
    let ghost pre = vec@;
    vec.remove(0);
    vec.pop();
    proof {
        if pre.len() >= 2 {
            assert(final(vec)@ =~= pre.subrange(1, pre.len() - 1));
        } else {
            assert(final(vec)@ =~= Seq::<T>::empty());
        }
    }
}

/// Marks a cell active.
pub fn set_node_on(node_status_map_entry: &mut NodeStatus)
    ensures
        *final(node_status_map_entry) == NodeStatus::On,
{
    set_node_status(node_status_map_entry, NodeStatus::On);
}

/// Marks a cell as an obstacle.
pub fn set_node_off(node_status_map_entry: &mut NodeStatus)
    ensures
        *final(node_status_map_entry) == NodeStatus::Off,
{
    set_node_status(node_status_map_entry, NodeStatus::Off);
}

/// Only plain `On`/`Off` cells may be painted; the start and end markers and
/// search annotations reject toggling.
pub fn is_node_toggleable(node_status_map_entry: &NodeStatus) -> (r: bool)
    ensures
        r == (*node_status_map_entry == NodeStatus::On || *node_status_map_entry
            == NodeStatus::Off),
{
    *node_status_map_entry == NodeStatus::On || *node_status_map_entry == NodeStatus::Off
}

/// Moves the start marker: the previous start cell (when one is recorded and
/// in range) reverts to `On`, the chosen cell becomes `Start`, and the
/// record follows it.
pub fn set_start_node(
    nodes: &mut Vec<NodeStatus>,
    new_start_id: usize,
    current_start_node_id: &mut Option<usize>,
)
    requires
        new_start_id < old(nodes)@.len(),
    ensures
        final(nodes)@ == (match *old(current_start_node_id) {
            Some(id) => (if id < old(nodes)@.len() {
                old(nodes)@.update(id as int, NodeStatus::On)
            } else {
                old(nodes)@
            }),
            None => old(nodes)@,
        }).update(new_start_id as int, NodeStatus::Start),
        *final(current_start_node_id) == Some(new_start_id),
{
    if let Some(id) = *current_start_node_id {
        if id < nodes.len() {
            set_node_status(&mut nodes[id], NodeStatus::On);
        }
    }
    set_node_status(&mut nodes[new_start_id], NodeStatus::Start);
    *current_start_node_id = Some(new_start_id);
}

/// Moves the end marker: the previous end cell (when one is recorded and in
/// range) reverts to `On`, the chosen cell becomes `End`, and the record
/// follows it.
pub fn set_end_node(
    nodes: &mut Vec<NodeStatus>,
    new_end_id: usize,
    current_end_node_id: &mut Option<usize>,
)
    requires
        new_end_id < old(nodes)@.len(),
    ensures
        final(nodes)@ == (match *old(current_end_node_id) {
            Some(id) => (if id < old(nodes)@.len() {
                old(nodes)@.update(id as int, NodeStatus::On)
            } else {
                old(nodes)@
            }),
            None => old(nodes)@,
        }).update(new_end_id as int, NodeStatus::End),
        *final(current_end_node_id) == Some(new_end_id),
{
    if let Some(id) = *current_end_node_id {
        if id < nodes.len() {
            set_node_status(&mut nodes[id], NodeStatus::On);
        }
    }
    set_node_status(&mut nodes[new_end_id], NodeStatus::End);
    *current_end_node_id = Some(new_end_id);
}

} // verus!
