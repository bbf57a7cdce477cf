use vstd::prelude::*;

use crate::alphabet::ValidatedAlphabet;
use crate::project::SubmachineDocument;
use crate::session::SelectableKey;
use crate::tm::{edges_avoiding, Action, EdgeView, NodeKey, SubmachineKey, SubmachineView, TransitionSymbols};

verus! {

/// The tool in the editor's hand.
#[derive(PartialEq, Eq, Debug)]
pub enum EditorTool {
    Edit(EditTools),
    Place(BasicActionTools),
    Submachine { name: String, key: SubmachineKey, power: u32 },
}

impl Clone for EditorTool {
    fn clone(&self) -> (t: Self)
        ensures
            t == *self,
    {
        match self {
            EditorTool::Edit(e) => EditorTool::Edit(*e),
            EditorTool::Place(p) => EditorTool::Place(*p),
            EditorTool::Submachine { name, key, power } => EditorTool::Submachine {
                name: name.clone(),
                key: *key,
                power: *power,
            },
        }
    }
}

impl Default for EditorTool {
    /// The move tool.
    fn default() -> (t: Self)
        ensures
            t == EditorTool::Edit(EditTools::Move),
    {
        EditorTool::Edit(EditTools::Move)
    }
}

/// Tools that edit what is on the canvas.
#[derive(PartialEq, Eq, Clone, Copy, Debug, Structural)]
pub enum EditTools {
    Move,
    Delete,
    Link,
    Comment,
}

impl Default for EditTools {
    /// The move tool.
    fn default() -> (t: Self)
        ensures
            t == EditTools::Move,
    {
        EditTools::Move
    }
}

/// Tools that place a node.
#[derive(PartialEq, Eq, Clone, Copy, Debug, Structural)]
pub enum BasicActionTools {
    Left,
    Right,
    Write,
    Start,
    Stop,
}

// - What the tools do

/// What a click on the canvas does with the tool in hand; the caller does
/// the part that needs the click's position.
#[derive(Debug, PartialEq, Eq)]
pub enum ClickEffect {
    /// Place a node doing this action where the click was.
    PlaceNode(Action),
    /// Place a new note where the click was.
    PlaceNote,
    /// Delete this item.
    Delete(SelectableKey),
    /// Hand this item to the link tool.
    Link(SelectableKey),
    /// Nothing.
    Nothing,
}

/// What a click does with `tool` in hand while `selected` is selected: the
/// placing tools place their node (a move of one cell, a write of the
/// blank, a call of the submachine with power one), the note tool a note;
/// the delete tool deletes the first selected item; the link tool takes
/// the item selected alone; the move tool does nothing.
pub fn click_effect(tool: &EditorTool, selected: &[SelectableKey]) -> (e: ClickEffect)
    ensures
        e == (match *tool {
            EditorTool::Place(BasicActionTools::Left) => ClickEffect::PlaceNode(Action::Left(1)),
            EditorTool::Place(BasicActionTools::Right) => ClickEffect::PlaceNode(Action::Right(1)),
            EditorTool::Place(BasicActionTools::Write) => ClickEffect::PlaceNode(Action::Write(' ')),
            EditorTool::Place(BasicActionTools::Start) => ClickEffect::PlaceNode(Action::Start),
            EditorTool::Place(BasicActionTools::Stop) => ClickEffect::PlaceNode(Action::Stop),
            EditorTool::Edit(EditTools::Comment) => ClickEffect::PlaceNote,
            EditorTool::Edit(EditTools::Delete) => if selected@.len() > 0 {
                ClickEffect::Delete(selected@[0])
            } else {
                ClickEffect::Nothing
            },
            EditorTool::Edit(EditTools::Link) => if selected@.len() == 1 {
                ClickEffect::Link(selected@[0])
            } else {
                ClickEffect::Nothing
            },
            EditorTool::Edit(EditTools::Move) => ClickEffect::Nothing,
            EditorTool::Submachine { name, key, .. } => ClickEffect::PlaceNode(
                Action::Submachine { name, key, power: 1 },
            ),
        }),
{
    match tool {
        EditorTool::Place(BasicActionTools::Left) => ClickEffect::PlaceNode(Action::Left(1)),
        EditorTool::Place(BasicActionTools::Right) => ClickEffect::PlaceNode(Action::Right(1)),
        EditorTool::Place(BasicActionTools::Write) => ClickEffect::PlaceNode(Action::Write(' ')),
        EditorTool::Place(BasicActionTools::Start) => ClickEffect::PlaceNode(Action::Start),
        EditorTool::Place(BasicActionTools::Stop) => ClickEffect::PlaceNode(Action::Stop),
        EditorTool::Edit(EditTools::Comment) => ClickEffect::PlaceNote,
        EditorTool::Edit(EditTools::Delete) => {
            if selected.len() > 0 {
                ClickEffect::Delete(selected[0])
            } else {
                ClickEffect::Nothing
            }
        },
        EditorTool::Edit(EditTools::Link) => {
            if selected.len() == 1 {
                ClickEffect::Link(selected[0])
            } else {
                ClickEffect::Nothing
            }
        },
        EditorTool::Edit(EditTools::Move) => ClickEffect::Nothing,
        EditorTool::Submachine { name, key, .. } => ClickEffect::PlaceNode(
            Action::Submachine { name: name.clone(), key: *key, power: 1 },
        ),
    }
}

/// Adds a node doing `action` to the document's submachine.
pub fn place_node(document: &mut SubmachineDocument, action: Action) -> (k: NodeKey)
    requires
        old(document).machine@.nodes.dom().finite(),
        old(document).machine@.nodes.len() < 0xffff_fffe,
    ensures
        !old(document).machine@.nodes.contains_key(k),
        final(document).machine@ == (SubmachineView {
            nodes: old(document).machine@.nodes.insert(k, action),
            ..old(document).machine@
        }),
{
    document.add_node(action)
}

/// Places a node that moves one cell left.
pub fn left_tool(document: &mut SubmachineDocument) -> (k: NodeKey)
    requires
        old(document).machine@.nodes.dom().finite(),
        old(document).machine@.nodes.len() < 0xffff_fffe,
    ensures
        !old(document).machine@.nodes.contains_key(k),
        final(document).machine@ == (SubmachineView {
            nodes: old(document).machine@.nodes.insert(k, Action::Left(1)),
            ..old(document).machine@
        }),
{
    place_node(document, Action::Left(1))
}

/// Places a node that moves one cell right.
pub fn right_tool(document: &mut SubmachineDocument) -> (k: NodeKey)
    requires
        old(document).machine@.nodes.dom().finite(),
        old(document).machine@.nodes.len() < 0xffff_fffe,
    ensures
        !old(document).machine@.nodes.contains_key(k),
        final(document).machine@ == (SubmachineView {
            nodes: old(document).machine@.nodes.insert(k, Action::Right(1)),
            ..old(document).machine@
        }),
{
    place_node(document, Action::Right(1))
}

/// Places a node that writes the blank.
pub fn write_tool(document: &mut SubmachineDocument) -> (k: NodeKey)
    requires
        old(document).machine@.nodes.dom().finite(),
        old(document).machine@.nodes.len() < 0xffff_fffe,
    ensures
        !old(document).machine@.nodes.contains_key(k),
        final(document).machine@ == (SubmachineView {
            nodes: old(document).machine@.nodes.insert(k, Action::Write(' ')),
            ..old(document).machine@
        }),
{
    place_node(document, Action::Write(' '))
}

/// Places a start node.
pub fn start_tool(document: &mut SubmachineDocument) -> (k: NodeKey)
    requires
        old(document).machine@.nodes.dom().finite(),
        old(document).machine@.nodes.len() < 0xffff_fffe,
    ensures
        !old(document).machine@.nodes.contains_key(k),
        final(document).machine@ == (SubmachineView {
            nodes: old(document).machine@.nodes.insert(k, Action::Start),
            ..old(document).machine@
        }),
{
    place_node(document, Action::Start)
}

/// Places a stop node.
pub fn stop_tool(document: &mut SubmachineDocument) -> (k: NodeKey)
    requires
        old(document).machine@.nodes.dom().finite(),
        old(document).machine@.nodes.len() < 0xffff_fffe,
    ensures
        !old(document).machine@.nodes.contains_key(k),
        final(document).machine@ == (SubmachineView {
            nodes: old(document).machine@.nodes.insert(k, Action::Stop),
            ..old(document).machine@
        }),
{
    place_node(document, Action::Stop)
}

/// Places a node that calls the submachine `submachine_key`, called
/// `name`, once.
pub fn submachine_tool(document: &mut SubmachineDocument, submachine_key: &SubmachineKey, name: String) -> (k: NodeKey)
    requires
        old(document).machine@.nodes.dom().finite(),
        old(document).machine@.nodes.len() < 0xffff_fffe,
    ensures
        !old(document).machine@.nodes.contains_key(k),
        final(document).machine@ == (SubmachineView {
            nodes: old(document).machine@.nodes.insert(
                k,
                Action::Submachine { name, key: *submachine_key, power: 1 },
            ),
            ..old(document).machine@
        }),
{
    place_node(document, Action::Submachine { name, key: *submachine_key, power: 1 })
}

/// Deletes an item from the document's submachine: a node with the edges
/// that touch it, or an edge. A note lives in the layout, which the caller
/// keeps; the submachine does not change for it.
pub fn delete_tool(submachine_document: &mut SubmachineDocument, selected_item: SelectableKey)
    ensures
        final(submachine_document).machine@ == (match selected_item {
            SelectableKey::Node(key) => SubmachineView {
                nodes: old(submachine_document).machine@.nodes.remove(key),
                edges: edges_avoiding(old(submachine_document).machine@.edges, key),
                ..old(submachine_document).machine@
            },
            SelectableKey::Edge(key) => SubmachineView {
                edges: old(submachine_document).machine@.edges.remove(key),
                ..old(submachine_document).machine@
            },
            SelectableKey::Note(_) => old(submachine_document).machine@,
        }),
{
    match selected_item {
        SelectableKey::Node(key) => submachine_document.remove_node(key),
        SelectableKey::Edge(key) => submachine_document.machine.remove_edge(key),
        SelectableKey::Note(_) => {},
    }
}

/// The link tool. A click on a node with no link started starts a link
/// there; a click on a node with a link started ends it there, adding an
/// edge from the first node to this one on every symbol of the alphabet.
/// A click on anything else does nothing.
pub fn link_tool(
    document: &mut SubmachineDocument,
    link_source: &mut Option<NodeKey>,
    alphabet: &ValidatedAlphabet,
    clicked: Option<SelectableKey>,
)
    requires
        old(document).machine@.edges.dom().finite(),
        old(document).machine@.edges.len() < 0xffff_fffe,
    ensures
        match clicked {
            Some(SelectableKey::Node(clicked_node)) => match *old(link_source) {
                None => *final(link_source) == Some(clicked_node) && final(document).machine@
                    == old(document).machine@,
                Some(source) => *final(link_source) is None && exists|k: crate::tm::EdgeKey|
                    !old(document).machine@.edges.contains_key(k) && final(document).machine@ == (SubmachineView {
                        edges: old(document).machine@.edges.insert(
                            k,
                            EdgeView { chars: alphabet@, source, target: clicked_node },
                        ),
                        ..old(document).machine@
                    }),
            },
            _ => *final(link_source) == *old(link_source) && final(document).machine@
                == old(document).machine@,
        },
{
    let clicked_node = match clicked {
        Some(SelectableKey::Node(n)) => n,
        _ => {
            return;
        },
    };
    match link_source.take() {
        None => {
            *link_source = Some(clicked_node);
        },
        Some(source) => {
            let target = clicked_node;
            let letters = alphabet.clone_iter();
            proof {
                crate::tm::lemma_alphabet_symbols(alphabet@);
            }
            let symbols = TransitionSymbols::new(letters, alphabet).unwrap();
            let k = document.machine.add_edge(symbols, source, target);
            assert(!old(document).machine@.edges.contains_key(k));
        },
    }
}

} // verus!
