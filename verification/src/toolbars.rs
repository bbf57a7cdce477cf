use vstd::prelude::*;

use crate::tm::SubmachineKey;

verus! {

/// What the control window asks for.
#[derive(Clone, Copy, Debug, PartialEq, Eq, Structural)]
pub enum ControlAction {
    NoAction,
    Menu,
    Save,
    Run,
    Help,
}

/// The page of the toolbars: a submachine being edited, or the menu.
#[derive(Clone, Copy, Debug)]
pub enum Page {
    Tinkering(SubmachineKey),
    Menu,
}

/// The form that creates a submachine.
#[derive(Clone, Debug)]
pub struct SubmachineCreationWindow {
    pub show_window: bool,
    pub name_buffer: String,
}

impl Default for SubmachineCreationWindow {
    /// Hidden, with an empty name.
    fn default() -> (w: Self)
        ensures
            !w.show_window,
            w.name_buffer@ == Seq::<char>::empty(),
    {
        SubmachineCreationWindow { show_window: false, name_buffer: String::new() }
    }
}

} // verus!
