use vstd::prelude::*;

use crate::glyphs::{push_char, SPACE};
use crate::text_input::shown_char;
use crate::tm::{Action, TransitionSymbols};

verus! {

/// Glyph of a start node.
pub const NODE_START: char = '○';

/// Glyph of a stop node.
pub const NODE_END: char = '◎';

/// Glyph of a move-left node.
pub const NODE_LEFT: char = 'l';

/// Glyph of a move-right node.
pub const NODE_RIGHT: char = 'r';

/// Glyph of a node that writes the blank.
pub const NODE_SPACE: char = 'λ';

/// The glyph drawn on a node: one per kind of action; a written symbol
/// shows itself (the blank as lambda); a submachine shows the first letter
/// of its name.
pub open spec fn node_glyph(action: Action) -> char {
    match action {
        Action::Start => NODE_START,
        Action::Stop => NODE_END,
        Action::Left(_) => NODE_LEFT,
        Action::Right(_) => NODE_RIGHT,
        Action::Write(c) => if c == SPACE {
            NODE_SPACE
        } else {
            c
        },
        Action::Submachine { name, .. } => name@[0],
    }
}

/// The label drawn on a node doing `action`: its glyph.
pub fn match_node_label(action: &Action) -> (s: String)
    requires
        action matches Action::Submachine { name, .. } ==> name@.len() > 0,
    ensures
        s@ == seq![node_glyph(*action)],
{
    let glyph = match action {
        Action::Start => NODE_START,
        Action::Stop => NODE_END,
        Action::Left(_) => NODE_LEFT,
        Action::Right(_) => NODE_RIGHT,
        Action::Write(c) => if *c == SPACE {
            NODE_SPACE
        } else {
            *c
        },
        Action::Submachine { name, .. } => name.as_str().get_char(0),
    };
    let mut s = String::new();
    push_char(&mut s, glyph);
    assert(s@ =~= seq![glyph]);
    s
}

/// The label drawn on an edge: its symbols in order, the blank shown as
/// lambda.
pub fn edge_label(chars: &TransitionSymbols) -> (s: String)
    ensures
        s@ == chars@.map_values(|c: char| shown_char(c)),
{
    let mut it = chars.iter();
    let ghost all = it@;
    let mut s = String::new();
    let ghost mut k: int = 0;
    assert(all.skip(0) =~= all);
    loop
        invariant
            all == chars@,
            0 <= k <= all.len(),
            it@ == all.skip(k),
            s@ == all.take(k).map_values(|c: char| shown_char(c)),
        decreases all.len() - k,
    {
        match it.next() {
            Some(c) => {
                let shown = if c == SPACE {
                    NODE_SPACE
                } else {
                    c
                };
                push_char(&mut s, shown);
                proof {
                    assert(all[k] == c);
                    assert(all.skip(k).drop_first() =~= all.skip(k + 1));
                    assert(all.take(k + 1).map_values(|c: char| shown_char(c)) =~= all.take(k).map_values(
                        |c: char| shown_char(c),
                    ).push(shown_char(c)));
                    k = k + 1;
                }
            },
            None => {
                assert(all.take(k) =~= all);
                return s;
            },
        }
    }
}

/// How a node is drawn.
#[derive(Debug, Clone, Copy, PartialEq, Eq, Structural)]
pub enum NodeMeta {
    Idle,
    Problem,
    Selected,
    Hovered,
}

/// How a node is drawn: a node with problems as such, before a selected
/// node, before a hovered one.
pub fn node_meta(is_problematic: bool, is_selected: bool, is_hovered: bool) -> (m: NodeMeta)
    ensures
        m == (if is_problematic {
            NodeMeta::Problem
        } else if is_selected {
            NodeMeta::Selected
        } else if is_hovered {
            NodeMeta::Hovered
        } else {
            NodeMeta::Idle
        }),
{
    if is_problematic {
        NodeMeta::Problem
    } else if is_selected {
        NodeMeta::Selected
    } else if is_hovered {
        NodeMeta::Hovered
    } else {
        NodeMeta::Idle
    }
}

/// How an edge is drawn.
#[derive(Debug, Clone, Copy, PartialEq, Eq, Structural)]
pub enum EdgeMeta {
    Idle,
    ConnectedToSelection,
    Selected,
    Hovered,
}

/// How an edge is drawn: a selected edge as such, before a hovered one,
/// before one whose two ends are selected nodes.
pub fn edge_meta(is_selected: bool, is_hovered: bool, connects_selected_nodes: bool) -> (m: EdgeMeta)
    ensures
        m == (if is_selected {
            EdgeMeta::Selected
        } else if is_hovered {
            EdgeMeta::Hovered
        } else if connects_selected_nodes {
            EdgeMeta::ConnectedToSelection
        } else {
            EdgeMeta::Idle
        }),
{
    if is_selected {
        EdgeMeta::Selected
    } else if is_hovered {
        EdgeMeta::Hovered
    } else if connects_selected_nodes {
        EdgeMeta::ConnectedToSelection
    } else {
        EdgeMeta::Idle
    }
}

} // verus!
