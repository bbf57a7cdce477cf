use slotmap::{DefaultKey, SlotMap};
use tmtinker::alphabet::ValidatedAlphabet;
use tmtinker::descriptions::{
    copy_node_description, end_node_description, left_node_description, right_node_description,
    space_node_description, start_node_description, submachine_node_description,
    word_left_node_description, word_right_node_description,
};
use tmtinker::labels::{edge_label, edge_meta, node_meta, EdgeMeta, NodeMeta};
use tmtinker::node_edit::{parse_power, problem_message, retain_digits, set_power, sign_from_text};
use tmtinker::project::SubmachineDocument;
use tmtinker::router::{tinker_action_of, TinkerAction};
use tmtinker::session::{SelectableKey, SelectionState};
use tmtinker::toolbars::ControlAction;
use tmtinker::tm::{Action, NodeProblem};
use tmtinker::tools::{
    click_effect, delete_tool, left_tool, link_tool, right_tool, start_tool, stop_tool,
    submachine_tool, write_tool, BasicActionTools, ClickEffect, EditTools, EditorTool,
};

fn keys(n: usize) -> Vec<DefaultKey> {
    let mut m: SlotMap<DefaultKey, ()> = SlotMap::new();
    (0..n).map(|_| m.insert(())).collect()
}

fn alphabet() -> ValidatedAlphabet {
    ValidatedAlphabet::new(vec![' ', '0', '1']).unwrap()
}

// --- Selection

#[test]
fn toggle_twice_restores_selection() {
    let k = keys(2);
    let mut s = SelectionState::default();
    s.single_select(SelectableKey::Node(k[0]));
    s.toggle_selected(SelectableKey::Node(k[1]));
    assert_eq!(s.selected, vec![SelectableKey::Node(k[0]), SelectableKey::Node(k[1])]);
    s.toggle_selected(SelectableKey::Node(k[1]));
    assert_eq!(s.selected, vec![SelectableKey::Node(k[0])]);
}

#[test]
fn toggle_twice_of_selected_key_keeps_the_set() {
    let k = keys(2);
    let mut s = SelectionState::default();
    s.single_select(SelectableKey::Node(k[0]));
    s.toggle_selected(SelectableKey::Node(k[1]));
    s.toggle_selected(SelectableKey::Node(k[0]));
    assert_eq!(s.selected, vec![SelectableKey::Node(k[1])]);
    s.toggle_selected(SelectableKey::Node(k[0]));
    assert_eq!(s.selected, vec![SelectableKey::Node(k[1]), SelectableKey::Node(k[0])]);
}

#[test]
fn single_item_queries() {
    let k = keys(3);
    let mut s = SelectionState::default();
    assert!(s.is_empty());
    s.single_select(SelectableKey::Edge(k[0]));
    assert_eq!(s.single_edge(), Some(k[0]));
    assert_eq!(s.single_node(), None);
    assert_eq!(s.single_note(), None);
    s.single_select(SelectableKey::Note(k[1]));
    assert_eq!(s.single_note(), Some(k[1]));
    s.toggle_selected(SelectableKey::Node(k[2]));
    assert_eq!(s.single_note(), None);
    assert_eq!(s.selected_node_keys(), vec![k[2]]);
    s.clear();
    assert!(s.is_empty());
    assert_eq!(s.hovered, None);
}

#[test]
fn click_on_item_selects_it_alone() {
    let k = keys(2);
    let mut s = SelectionState::default();
    s.single_select(SelectableKey::Node(k[0]));
    s.apply_click(Some(SelectableKey::Node(k[1])), false, false, false);
    assert_eq!(s.selected, vec![SelectableKey::Node(k[1])]);
}

#[test]
fn shift_click_toggles() {
    let k = keys(2);
    let mut s = SelectionState::default();
    s.single_select(SelectableKey::Node(k[0]));
    s.apply_click(Some(SelectableKey::Node(k[1])), true, false, false);
    assert_eq!(s.selected, vec![SelectableKey::Node(k[0]), SelectableKey::Node(k[1])]);
    s.apply_click(Some(SelectableKey::Node(k[0])), false, false, true);
    assert_eq!(s.selected, vec![SelectableKey::Node(k[1])]);
}

#[test]
fn click_on_empty_canvas_clears_unless_modifier() {
    let k = keys(1);
    let mut s = SelectionState::default();
    s.single_select(SelectableKey::Node(k[0]));
    s.apply_click(None, false, true, false);
    assert_eq!(s.selected, vec![SelectableKey::Node(k[0])]);
    s.apply_click(None, false, false, false);
    assert!(s.is_empty());
}

#[test]
fn drag_of_selected_node_drags_selection() {
    let k = keys(3);
    let mut s = SelectionState::default();
    s.single_select(SelectableKey::Node(k[0]));
    s.toggle_selected(SelectableKey::Node(k[1]));
    let drag = s.start_drag(Some(SelectableKey::Node(k[1])), false);
    assert_eq!(drag, Some(vec![SelectableKey::Node(k[0]), SelectableKey::Node(k[1])]));
    let drag = s.start_drag(Some(SelectableKey::Node(k[2])), false);
    assert_eq!(drag, Some(vec![SelectableKey::Node(k[2])]));
    assert_eq!(s.selected, vec![SelectableKey::Node(k[2])]);
}

#[test]
fn drag_of_note_drags_note_alone() {
    let k = keys(2);
    let mut s = SelectionState::default();
    s.single_select(SelectableKey::Node(k[0]));
    s.toggle_selected(SelectableKey::Note(k[1]));
    let drag = s.start_drag(Some(SelectableKey::Note(k[1])), false);
    assert_eq!(drag, Some(vec![SelectableKey::Note(k[1])]));
    assert_eq!(s.selected.len(), 2);
}

#[test]
fn drag_elsewhere_lets_go() {
    let k = keys(1);
    let mut s = SelectionState::default();
    assert_eq!(s.start_drag(None, false), None);
    assert_eq!(s.start_drag(Some(SelectableKey::Edge(k[0])), false), None);
    assert!(s.is_empty());
}

// --- Tools

#[test]
fn click_effects_of_tools() {
    let k = keys(2);
    let sel = [SelectableKey::Node(k[0]), SelectableKey::Node(k[1])];
    assert_eq!(click_effect(&EditorTool::Place(BasicActionTools::Left), &sel), ClickEffect::PlaceNode(Action::Left(1)));
    assert_eq!(click_effect(&EditorTool::Place(BasicActionTools::Right), &sel), ClickEffect::PlaceNode(Action::Right(1)));
    assert_eq!(click_effect(&EditorTool::Place(BasicActionTools::Write), &sel), ClickEffect::PlaceNode(Action::Write(' ')));
    assert_eq!(click_effect(&EditorTool::Place(BasicActionTools::Start), &sel), ClickEffect::PlaceNode(Action::Start));
    assert_eq!(click_effect(&EditorTool::Place(BasicActionTools::Stop), &sel), ClickEffect::PlaceNode(Action::Stop));
    assert_eq!(click_effect(&EditorTool::Edit(EditTools::Comment), &sel), ClickEffect::PlaceNote);
    assert_eq!(click_effect(&EditorTool::Edit(EditTools::Delete), &sel), ClickEffect::Delete(sel[0]));
    assert_eq!(click_effect(&EditorTool::Edit(EditTools::Delete), &[]), ClickEffect::Nothing);
    assert_eq!(click_effect(&EditorTool::Edit(EditTools::Link), &sel), ClickEffect::Nothing);
    assert_eq!(click_effect(&EditorTool::Edit(EditTools::Link), &sel[1..]), ClickEffect::Link(sel[1]));
    assert_eq!(click_effect(&EditorTool::Edit(EditTools::Move), &sel), ClickEffect::Nothing);
    let tool = EditorTool::Submachine { name: "sub".to_string(), key: k[0], power: 4 };
    assert_eq!(
        click_effect(&tool, &sel),
        ClickEffect::PlaceNode(Action::Submachine { name: "sub".to_string(), key: k[0], power: 1 })
    );
    assert_eq!(EditorTool::default(), EditorTool::Edit(EditTools::Move));
}

#[test]
fn placing_tools_place_their_nodes() {
    let k = keys(1);
    let mut doc = SubmachineDocument::new("m".to_string());
    let a = left_tool(&mut doc);
    let b = right_tool(&mut doc);
    let c = write_tool(&mut doc);
    let d = start_tool(&mut doc);
    let e = stop_tool(&mut doc);
    let f = submachine_tool(&mut doc, &k[0], "sub".to_string());
    let m = &doc.machine;
    assert_eq!(m.get_node_action(a), Some(&Action::Left(1)));
    assert_eq!(m.get_node_action(b), Some(&Action::Right(1)));
    assert_eq!(m.get_node_action(c), Some(&Action::Write(' ')));
    assert_eq!(m.get_node_action(d), Some(&Action::Start));
    assert_eq!(m.get_node_action(e), Some(&Action::Stop));
    assert_eq!(
        m.get_node_action(f),
        Some(&Action::Submachine { name: "sub".to_string(), key: k[0], power: 1 })
    );
}

#[test]
fn link_tool_links_two_clicked_nodes() {
    let mut doc = SubmachineDocument::new("m".to_string());
    let a = start_tool(&mut doc);
    let b = stop_tool(&mut doc);
    let mut source = None;
    link_tool(&mut doc, &mut source, &alphabet(), Some(SelectableKey::Node(a)));
    assert_eq!(source, Some(a));
    assert_eq!(doc.machine.edges_iter().len(), 0);
    link_tool(&mut doc, &mut source, &alphabet(), Some(SelectableKey::Node(b)));
    assert_eq!(source, None);
    let edges = doc.machine.edges_iter();
    assert_eq!(edges.len(), 1);
    assert_eq!(edges[0].1.source, a);
    assert_eq!(edges[0].1.target, b);
    for c in [' ', '0', '1'] {
        assert!(edges[0].1.accepts(c));
    }
}

#[test]
fn link_tool_ignores_other_items() {
    let k = keys(1);
    let mut doc = SubmachineDocument::new("m".to_string());
    let a = start_tool(&mut doc);
    let mut source = Some(a);
    link_tool(&mut doc, &mut source, &alphabet(), Some(SelectableKey::Note(k[0])));
    assert_eq!(source, Some(a));
    link_tool(&mut doc, &mut source, &alphabet(), None);
    assert_eq!(source, Some(a));
    assert_eq!(doc.machine.edges_iter().len(), 0);
}

#[test]
fn delete_tool_removes_node_and_its_edges() {
    let mut doc = SubmachineDocument::new("m".to_string());
    let a = start_tool(&mut doc);
    let b = stop_tool(&mut doc);
    let c = left_tool(&mut doc);
    let mut source = None;
    link_tool(&mut doc, &mut source, &alphabet(), Some(SelectableKey::Node(a)));
    link_tool(&mut doc, &mut source, &alphabet(), Some(SelectableKey::Node(b)));
    link_tool(&mut doc, &mut source, &alphabet(), Some(SelectableKey::Node(c)));
    link_tool(&mut doc, &mut source, &alphabet(), Some(SelectableKey::Node(b)));
    assert_eq!(doc.machine.edges_iter().len(), 2);
    delete_tool(&mut doc, SelectableKey::Node(a));
    assert_eq!(doc.machine.get_node(a).is_none(), true);
    let edges = doc.machine.edges_iter();
    assert_eq!(edges.len(), 1);
    delete_tool(&mut doc, SelectableKey::Edge(edges[0].0));
    assert_eq!(doc.machine.edges_iter().len(), 0);
    assert_eq!(doc.machine.nodes_iter().len(), 2);
}

#[test]
fn control_actions_of_tinker_page() {
    assert_eq!(tinker_action_of(ControlAction::Menu), TinkerAction::GoToMenu);
    assert_eq!(tinker_action_of(ControlAction::Save), TinkerAction::NoAction);
    assert_eq!(tinker_action_of(ControlAction::Run), TinkerAction::NoAction);
    assert_eq!(tinker_action_of(ControlAction::Help), TinkerAction::NoAction);
    assert_eq!(tinker_action_of(ControlAction::NoAction), TinkerAction::NoAction);
}

// --- Node options

#[test]
fn retain_digits_keeps_digits() {
    assert_eq!(retain_digits(&"a1b2 3".to_string()), "123");
    assert_eq!(retain_digits(&"xyz".to_string()), "");
}

#[test]
fn parse_power_cases() {
    assert_eq!(parse_power(&"42".to_string()), 42);
    assert_eq!(parse_power(&"007".to_string()), 7);
    assert_eq!(parse_power(&"".to_string()), 1);
    assert_eq!(parse_power(&"0".to_string()), 1);
    assert_eq!(parse_power(&"4294967295".to_string()), 4294967295);
    assert_eq!(parse_power(&"4294967296".to_string()), 1);
    assert_eq!(parse_power(&"99999999999999999999999".to_string()), 1);
}

#[test]
fn set_power_of_moves_only() {
    let mut a = Action::Left(1);
    set_power(&mut a, 5);
    assert_eq!(a, Action::Left(5));
    let mut b = Action::Right(2);
    set_power(&mut b, 7);
    assert_eq!(b, Action::Right(7));
    let mut c = Action::Write('1');
    set_power(&mut c, 7);
    assert_eq!(c, Action::Write('1'));
}

#[test]
fn sign_from_text_cases() {
    assert_eq!(sign_from_text(&"1".to_string()), '1');
    assert_eq!(sign_from_text(&"λ".to_string()), ' ');
    assert_eq!(sign_from_text(&"".to_string()), ' ');
    assert_eq!(sign_from_text(&"01".to_string()), '0');
}

#[test]
fn problem_messages() {
    assert_eq!(problem_message(&NodeProblem::NotAvailable), "Node is not connected to any other node");
    assert_eq!(problem_message(&NodeProblem::StartNodeIncoming), "Start node can't have incoming transitions");
    assert_eq!(problem_message(&NodeProblem::EndNodeOutgoing), "End node cant' have outgoing transitions");
    assert_eq!(problem_message(&NodeProblem::MissingTransition('1')), "Missing transition for '1'");
    assert_eq!(problem_message(&NodeProblem::AmbiguousTransition(' ')), "Ambiguous transition for ' '");
}

// --- Drawing rules and texts

#[test]
fn edge_labels_show_blank_as_lambda() {
    let t = tmtinker::tm::TransitionSymbols::new(vec!['1', ' ', '0'], &alphabet()).unwrap();
    assert_eq!(edge_label(&t), "1λ0");
}

#[test]
fn node_drawing_priorities() {
    assert_eq!(node_meta(true, true, true), NodeMeta::Problem);
    assert_eq!(node_meta(false, true, true), NodeMeta::Selected);
    assert_eq!(node_meta(false, false, true), NodeMeta::Hovered);
    assert_eq!(node_meta(false, false, false), NodeMeta::Idle);
}

#[test]
fn edge_drawing_priorities() {
    assert_eq!(edge_meta(true, true, true), EdgeMeta::Selected);
    assert_eq!(edge_meta(false, true, true), EdgeMeta::Hovered);
    assert_eq!(edge_meta(false, false, true), EdgeMeta::ConnectedToSelection);
    assert_eq!(edge_meta(false, false, false), EdgeMeta::Idle);
}

#[test]
fn node_descriptions() {
    assert_eq!(left_node_description(), "Moves head power cells to the left.");
    assert_eq!(right_node_description(), "Moves head power cells to the right.");
    assert_eq!(word_left_node_description(), "Moves head power words to the left.");
    assert_eq!(word_right_node_description(), "Moves head power words to the right.");
    assert_eq!(space_node_description(), "Places selected sign under the working head");
    assert_eq!(submachine_node_description(), "...");
    assert_eq!(
        copy_node_description(),
        "Copies power words from the left of the working head to its right, preserving words order."
    );
    assert_eq!(start_node_description(), "Entry point of each submachine.");
    assert_eq!(end_node_description(), "Exit point of each submachine.");
}
