use vstd::prelude::*;

use crate::toolbars::ControlAction;
use crate::tools::{EditTools, EditorTool};

verus! {

/// The editor's tool choice.
#[derive(Clone, Debug)]
pub struct ToolState {
    pub current_tool: EditorTool,
}

impl Default for ToolState {
    /// The move tool.
    fn default() -> (s: Self)
        ensures
            s.current_tool == EditorTool::Edit(EditTools::Move),
    {
        ToolState { current_tool: EditorTool::default() }
    }
}

/// Which tape cell the editor works on.
#[derive(Clone, Copy, Debug)]
pub struct TapeState {
    pub current_cell_id: u32,
}

impl Default for TapeState {
    /// The first cell.
    fn default() -> (s: Self)
        ensures
            s.current_cell_id == 0,
    {
        TapeState { current_cell_id: 0 }
    }
}

/// The page the application shows.
#[derive(Clone, Copy, Debug, PartialEq, Eq, Structural)]
pub enum Page {
    Tinkering,
    Menu,
}

/// What the tinkering page asks of the application.
#[derive(Clone, Copy, Debug, PartialEq, Eq, Structural)]
pub enum TinkerAction {
    NoAction,
    GoToMenu,
    SaveProject,
}

/// What the tinkering page asks of the application after the control
/// window answered `action`: to go to the menu when the menu was asked
/// for, nothing otherwise.
pub fn tinker_action_of(action: ControlAction) -> (t: TinkerAction)
    ensures
        t == (if action == ControlAction::Menu {
            TinkerAction::GoToMenu
        } else {
            TinkerAction::NoAction
        }),
{
    match action {
        ControlAction::Menu => TinkerAction::GoToMenu,
        ControlAction::Run | ControlAction::Save | ControlAction::NoAction | ControlAction::Help => TinkerAction::NoAction,
    }
}

} // verus!
