use tmtinker::alphabet::ValidatedAlphabet;
use tmtinker::bundle::{self, ProjectBundle};
use tmtinker::project::{Project, RemoveSubmachineError};
use tmtinker::tm::Action;

fn alphabet() -> ValidatedAlphabet {
    ValidatedAlphabet::new(vec![' ', '1']).unwrap()
}

fn edge(chars: &[char], source: usize, target: usize) -> bundle::Edge {
    bundle::Edge { chars: chars.to_vec(), source, target }
}

fn node(action: bundle::Action) -> bundle::Node {
    bundle::Node { action }
}

/// The sample project the application opens with.
fn sample_bundle() -> ProjectBundle {
    ProjectBundle {
        name: String::new(),
        submachines: vec![
            bundle::Submachine {
                name: "Main machine".to_string(),
                nodes: vec![
                    node(bundle::Action::Left(1)),
                    node(bundle::Action::Start),
                    node(bundle::Action::Start),
                ],
                edges: vec![edge(&['1', ' '], 1, 0), edge(&[' ', '1'], 0, 2)],
            },
            bundle::Submachine {
                name: "machine".to_string(),
                nodes: vec![
                    node(bundle::Action::Start),
                    node(bundle::Action::Left(1)),
                    node(bundle::Action::Right(1)),
                    node(bundle::Action::Start),
                ],
                edges: vec![
                    edge(&['1', ' '], 0, 1),
                    edge(&['1', ' '], 1, 3),
                    edge(&['1', ' '], 0, 2),
                    edge(&['1', ' '], 2, 3),
                ],
            },
        ],
        alphabet: vec![' ', '1'],
    }
}

fn assert_same_bundle(a: &ProjectBundle, b: &ProjectBundle) {
    assert_eq!(a.name, b.name);
    assert_eq!(a.alphabet, b.alphabet);
    assert_eq!(a.submachines.len(), b.submachines.len());
    for (x, y) in a.submachines.iter().zip(b.submachines.iter()) {
        assert_eq!(x.name, y.name);
        assert_eq!(x.nodes, y.nodes);
        assert_eq!(x.edges.len(), y.edges.len());
        for (e, f) in x.edges.iter().zip(y.edges.iter()) {
            assert_eq!(e.chars, f.chars);
            assert_eq!(e.source, f.source);
            assert_eq!(e.target, f.target);
        }
    }
}

#[test]
fn new_project_has_main_machine() {
    let project = Project::new("p".to_string(), alphabet());
    assert_eq!(project.get_name(), "p");
    let list = project.list_submachines();
    assert_eq!(list.len(), 1);
    assert_eq!(list[0].0, *project.current_submachine_key());
    assert_eq!(list[0].1.machine.name(), "Main machine");
    assert_eq!(project.get_alphabet_iter(), &[' ', '1']);
    let (name, letters) = project.info();
    assert_eq!(name, "p");
    assert_eq!(letters, &[' ', '1']);
}

#[test]
fn add_submachine_makes_it_current_and_lists_it_last() {
    let mut project = Project::new("p".to_string(), alphabet());
    let main = *project.current_submachine_key();
    project.add_submachine("second".to_string());
    let second = *project.current_submachine_key();
    assert_ne!(main, second);
    let list = project.list_submachines();
    assert_eq!(list.len(), 2);
    assert_eq!(list[0].0, main);
    assert_eq!(list[1].0, second);
    assert_eq!(list[1].1.machine.name(), "second");
}

#[test]
fn remove_current_machine_is_refused() {
    let mut project = Project::new("p".to_string(), alphabet());
    let main = *project.current_submachine_key();
    assert_eq!(project.remove_submachine(main), Err(RemoveSubmachineError::CannotRemoveCurrentMachine));
    assert_eq!(
        RemoveSubmachineError::CannotRemoveCurrentMachine.message(),
        "Cannot remove the current active submachine."
    );
}

#[test]
fn remove_main_machine_is_refused() {
    let mut project = Project::new("p".to_string(), alphabet());
    let main = *project.current_submachine_key();
    project.add_submachine("second".to_string());
    assert_eq!(project.remove_submachine(main), Err(RemoveSubmachineError::CannotRemoveMainMachine));
    assert_eq!(RemoveSubmachineError::CannotRemoveMainMachine.message(), "Cannot remove the main machine.");
    assert_eq!(project.list_submachines().len(), 2);
}

#[test]
fn remove_other_machine() {
    let mut project = Project::new("p".to_string(), alphabet());
    let main = *project.current_submachine_key();
    project.add_submachine("second".to_string());
    let second = *project.current_submachine_key();
    project.set_submachine(main);
    assert_eq!(project.remove_submachine(second), Ok(()));
    let list = project.list_submachines();
    assert_eq!(list.len(), 1);
    assert_eq!(list[0].0, main);
}

#[test]
fn rename_and_edit_current_document() {
    let mut project = Project::new("p".to_string(), alphabet());
    project.rename_project("q".to_string());
    assert_eq!(project.get_name(), "q");
    let key = project.current_document_mut().add_node(Action::Start);
    assert_eq!(project.list_submachines()[0].1.machine.get_node_action(key), Some(&Action::Start));
}

#[test]
fn sample_bundle_is_loadable() {
    assert!(sample_bundle().is_loadable());
}

#[test]
fn bundle_without_submachines_is_not_loadable() {
    let mut b = sample_bundle();
    b.submachines.clear();
    assert!(!b.is_loadable());
}

#[test]
fn bundle_with_bad_alphabet_is_not_loadable() {
    let mut b = sample_bundle();
    b.alphabet = vec!['1', '0'];
    assert!(!b.is_loadable());
}

#[test]
fn bundle_with_missing_node_is_not_loadable() {
    let mut b = sample_bundle();
    b.submachines[0].edges.push(edge(&['1'], 0, 3));
    assert!(!b.is_loadable());
}

#[test]
fn bundle_with_missing_target_machine_is_not_loadable() {
    let mut b = sample_bundle();
    b.submachines[1].nodes.push(node(bundle::Action::Submachine { target_id: 2, power: 1 }));
    assert!(!b.is_loadable());
}

#[test]
fn bundle_with_bad_symbols_is_not_loadable() {
    let mut b = sample_bundle();
    b.submachines[1].edges.push(edge(&['1', '1'], 0, 1));
    assert!(!b.is_loadable());
    let mut c = sample_bundle();
    c.submachines[1].edges.push(edge(&['0'], 0, 1));
    assert!(!c.is_loadable());
    let mut d = sample_bundle();
    d.submachines[1].edges.push(edge(&[], 0, 1));
    assert!(!d.is_loadable());
}

#[test]
fn loaded_project_holds_the_saved_machines() {
    let project = Project::from_bundle(sample_bundle());
    assert_eq!(project.get_name(), "");
    assert_eq!(project.get_alphabet_iter(), &[' ', '1']);
    let list = project.list_submachines();
    assert_eq!(list.len(), 2);
    assert_eq!(*project.current_submachine_key(), list[0].0);
    let main = &list[0].1.machine;
    assert_eq!(main.name(), "Main machine");
    let nodes = main.nodes_iter();
    assert_eq!(nodes.len(), 3);
    assert_eq!(nodes[0].1.action, Action::Left(1));
    assert_eq!(nodes[1].1.action, Action::Start);
    let edges = main.edges_iter();
    assert_eq!(edges.len(), 2);
    assert_eq!(edges[0].1.source, nodes[1].0);
    assert_eq!(edges[0].1.target, nodes[0].0);
    // loading validates: the second start node has an edge in and none out
    assert!(!main.get_node_problems(nodes[2].0).is_empty());
}

#[test]
fn loaded_submachine_call_names_its_target() {
    let mut b = sample_bundle();
    b.submachines[0].nodes.push(node(bundle::Action::Submachine { target_id: 1, power: 3 }));
    let project = Project::from_bundle(b);
    let list = project.list_submachines();
    let nodes = list[0].1.machine.nodes_iter();
    assert_eq!(
        nodes[3].1.action,
        Action::Submachine { name: "machine".to_string(), key: list[1].0, power: 3 }
    );
}

#[test]
fn save_after_load_gives_back_the_bundle() {
    let original = sample_bundle();
    let project = Project::from_bundle(original.clone());
    let saved = ProjectBundle::get_bundle(&project);
    assert_same_bundle(&saved, &original);
}

#[test]
fn save_after_load_keeps_submachine_calls() {
    let mut original = sample_bundle();
    original.submachines[1].nodes.push(node(bundle::Action::Submachine { target_id: 0, power: 2 }));
    original.submachines[1].nodes.push(node(bundle::Action::Write('1')));
    let project = Project::from_bundle(original.clone());
    let saved = ProjectBundle::get_bundle(&project);
    assert_same_bundle(&saved, &original);
}

#[test]
fn save_new_project() {
    let mut project = Project::new("fresh".to_string(), alphabet());
    let a = project.current_document_mut().add_node(Action::Start);
    let b = project.current_document_mut().add_node(Action::Stop);
    let symbols = tmtinker::tm::TransitionSymbols::new(vec!['1'], &alphabet()).unwrap();
    project.current_document_mut().machine.add_edge(symbols, a, b);
    let saved = ProjectBundle::get_bundle(&project);
    assert_eq!(saved.name, "fresh");
    assert_eq!(saved.alphabet, vec![' ', '1']);
    assert_eq!(saved.submachines.len(), 1);
    assert_eq!(saved.submachines[0].name, "Main machine");
    assert_eq!(saved.submachines[0].nodes, vec![node(bundle::Action::Start), node(bundle::Action::Stop)]);
    assert_eq!(saved.submachines[0].edges.len(), 1);
    assert_eq!(saved.submachines[0].edges[0].chars, vec!['1']);
    assert_eq!(saved.submachines[0].edges[0].source, 0);
    assert_eq!(saved.submachines[0].edges[0].target, 1);
}

#[test]
fn validate_machines_twice_finds_the_same_problems() {
    let mut project = Project::from_bundle(sample_bundle());
    let list: Vec<_> = project.list_submachines().iter().map(|(k, d)| {
        (*k, d.machine.nodes_iter().iter().map(|(n, _)| d.machine.get_node_problems(*n)).collect::<Vec<_>>())
    }).collect();
    project.validate_machines();
    project.validate_machines();
    let again: Vec<_> = project.list_submachines().iter().map(|(k, d)| {
        (*k, d.machine.nodes_iter().iter().map(|(n, _)| d.machine.get_node_problems(*n)).collect::<Vec<_>>())
    }).collect();
    assert_eq!(list, again);
}

#[test]
fn projects_with_resolved_references_can_be_saved() {
    let project = Project::from_bundle(sample_bundle());
    assert!(ProjectBundle::can_bundle(&project));
}

#[test]
fn dangling_submachine_call_cannot_be_saved() {
    let mut project = Project::new("p".to_string(), alphabet());
    let main = *project.current_submachine_key();
    project.add_submachine("helper".to_string());
    let helper = *project.current_submachine_key();
    project.set_submachine(main);
    project
        .current_document_mut()
        .add_node(Action::Submachine { name: "helper".to_string(), key: helper, power: 1 });
    assert!(ProjectBundle::can_bundle(&project));
    assert_eq!(project.remove_submachine(helper), Ok(()));
    assert!(!ProjectBundle::can_bundle(&project));
}

#[test]
fn load_after_save_gives_back_the_project() {
    let mut project = Project::new("round".to_string(), alphabet());
    let main = *project.current_submachine_key();
    project.add_submachine("helper".to_string());
    let helper = *project.current_submachine_key();
    project.set_submachine(main);
    let doc = project.current_document_mut();
    let a = doc.add_node(Action::Start);
    // the call still carries the name the helper had when it was placed
    let b = doc.add_node(Action::Submachine { name: "old name".to_string(), key: helper, power: 2 });
    let c = doc.add_node(Action::Stop);
    let s1 = tmtinker::tm::TransitionSymbols::new(vec!['1', ' '], &alphabet()).unwrap();
    let s2 = tmtinker::tm::TransitionSymbols::new(vec![' '], &alphabet()).unwrap();
    doc.machine.add_edge(s1, a, b);
    doc.machine.add_edge(s2, b, c);

    let loaded = Project::from_bundle(ProjectBundle::get_bundle(&project));
    assert_eq!(loaded.get_name(), "round");
    assert_eq!(loaded.get_alphabet_iter(), &[' ', '1']);
    let list = loaded.list_submachines();
    assert_eq!(list.len(), 2);
    assert_eq!(*loaded.current_submachine_key(), list[0].0);
    assert_eq!(list[0].1.machine.name(), "Main machine");
    assert_eq!(list[1].1.machine.name(), "helper");
    let nodes = list[0].1.machine.nodes_iter();
    assert_eq!(nodes.len(), 3);
    assert_eq!(nodes[0].1.action, Action::Start);
    assert_eq!(
        nodes[1].1.action,
        Action::Submachine { name: "helper".to_string(), key: list[1].0, power: 2 }
    );
    assert_eq!(nodes[2].1.action, Action::Stop);
    let edges = list[0].1.machine.edges_iter();
    assert_eq!(edges.len(), 2);
    assert_eq!((edges[0].1.source, edges[0].1.target), (nodes[0].0, nodes[1].0));
    assert_eq!((edges[1].1.source, edges[1].1.target), (nodes[1].0, nodes[2].0));
    assert!(edges[0].1.accepts('1') && edges[0].1.accepts(' ') && !edges[1].1.accepts('1'));
}
