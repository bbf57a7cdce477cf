//! The descriptions of the node kinds that the node options window shows.

use vstd::prelude::*;

verus! {

/// The description of a left node.
pub fn left_node_description() -> (s: &'static str)
    ensures
        s@ == "Moves head power cells to the left."@,
{
    "Moves head power cells to the left."
}

/// The description of a right node.
pub fn right_node_description() -> (s: &'static str)
    ensures
        s@ == "Moves head power cells to the right."@,
{
    "Moves head power cells to the right."
}

/// The description of a word left node.
pub fn word_left_node_description() -> (s: &'static str)
    ensures
        s@ == "Moves head power words to the left."@,
{
    "Moves head power words to the left."
}

/// The description of a word right node.
pub fn word_right_node_description() -> (s: &'static str)
    ensures
        s@ == "Moves head power words to the right."@,
{
    "Moves head power words to the right."
}

/// The description of a space node.
pub fn space_node_description() -> (s: &'static str)
    ensures
        s@ == "Places selected sign under the working head"@,
{
    "Places selected sign under the working head"
}

/// The description of a submachine node.
pub fn submachine_node_description() -> (s: &'static str)
    ensures
        s@ == "..."@,
{
    "..."
}

/// The description of a copy node.
pub fn copy_node_description() -> (s: &'static str)
    ensures
        s@ == "Copies power words from the left of the working head to its right, preserving words order."@,
{
    "Copies power words from the left of the working head to its right, preserving words order."
}

/// The description of a start node.
pub fn start_node_description() -> (s: &'static str)
    ensures
        s@ == "Entry point of each submachine."@,
{
    "Entry point of each submachine."
}

/// The description of a end node.
pub fn end_node_description() -> (s: &'static str)
    ensures
        s@ == "Exit point of each submachine."@,
{
    "Exit point of each submachine."
}

} // verus!
