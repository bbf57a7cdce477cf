use tmtinker::alphabet::{is_allowed, AlphabetCreationError, ValidatedAlphabet};
use tmtinker::labels::match_node_label;
use tmtinker::tape::Tape;
use tmtinker::text_input::{buffer_to_load, formatted_buffer};
use tmtinker::tm::{Action, NodeProblem, Submachine, TransitionSymbols, TransitionSymbolsError};
use tmtinker::tmcore::{BasicCommands, TMCore};

fn alphabet() -> ValidatedAlphabet {
    ValidatedAlphabet::new(vec![' ', '0', '1']).unwrap()
}

// --- Alphabets

#[test]
fn alphabet_accepts_valid_symbols() {
    let a = alphabet();
    assert_eq!(a.iter(), &[' ', '0', '1']);
    assert_eq!(a.clone_iter(), vec![' ', '0', '1']);
    assert_eq!(a.clone().iter(), &[' ', '0', '1']);
}

#[test]
fn alphabet_too_small() {
    assert_eq!(ValidatedAlphabet::new(vec![' ']).unwrap_err(), AlphabetCreationError::AlphabetTooSmall);
    assert_eq!(ValidatedAlphabet::new(vec![]).unwrap_err(), AlphabetCreationError::AlphabetTooSmall);
}

#[test]
fn alphabet_character_not_allowed() {
    assert_eq!(ValidatedAlphabet::new(vec![' ', 'ä']).unwrap_err(), AlphabetCreationError::CharacterNotAllowed);
    assert!(!is_allowed('ä'));
    assert!(is_allowed('z'));
    assert!(is_allowed('?'));
}

#[test]
fn alphabet_duplicated_characters() {
    assert_eq!(ValidatedAlphabet::new(vec![' ', '1', '1']).unwrap_err(), AlphabetCreationError::DuplicatedCharacters);
}

#[test]
fn alphabet_without_blank() {
    assert_eq!(ValidatedAlphabet::new(vec!['0', '1']).unwrap_err(), AlphabetCreationError::AlphabetDoesNotHaveLambda);
}

#[test]
fn alphabet_first_fault_wins() {
    // a symbol that is not allowed comes before the duplicate
    assert_eq!(ValidatedAlphabet::new(vec!['1', 'ä', '1']).unwrap_err(), AlphabetCreationError::CharacterNotAllowed);
    assert_eq!(AlphabetCreationError::DuplicatedCharacters.message(), "Alphabet has duplicated characters.");
}

// --- Transition symbols

#[test]
fn symbols_accepted_in_order() {
    let t = TransitionSymbols::new(vec!['1', ' '], &alphabet()).unwrap();
    assert!(t.contains('1'));
    assert!(t.contains(' '));
    assert!(!t.contains('0'));
    let mut it = t.iter();
    assert_eq!(it.next(), Some('1'));
    assert_eq!(it.next(), Some(' '));
    assert_eq!(it.next(), None);
}

#[test]
fn symbols_empty() {
    assert_eq!(TransitionSymbols::new(vec![], &alphabet()).unwrap_err(), TransitionSymbolsError::Empty);
    assert_eq!(TransitionSymbolsError::Empty.message(), "Symbols must not be empty");
}

#[test]
fn symbols_outside_alphabet() {
    assert_eq!(
        TransitionSymbols::new(vec!['1', '2'], &alphabet()).unwrap_err(),
        TransitionSymbolsError::AlphabetDoesNotContain('2')
    );
}

#[test]
fn symbols_duplicated() {
    assert_eq!(
        TransitionSymbols::new(vec!['1', '0', '1'], &alphabet()).unwrap_err(),
        TransitionSymbolsError::DuplicatedCharacter('1')
    );
}

// --- Submachines

fn symbols(cs: &[char]) -> TransitionSymbols {
    TransitionSymbols::new(cs.to_vec(), &alphabet()).unwrap()
}

#[test]
fn validate_finds_node_problems() {
    let mut m = Submachine::new("m".to_string());
    let start = m.add_node(Action::Start);
    let left = m.add_node(Action::Left(1));
    let stop = m.add_node(Action::Stop);
    let lonely = m.add_node(Action::Write('1'));
    m.add_edge(symbols(&[' ', '0', '1']), start, left);
    m.add_edge(symbols(&['0']), left, stop);
    m.add_edge(symbols(&['0', '1']), left, stop);
    m.validate(alphabet());
    assert_eq!(m.get_node_problems(start), vec![]);
    assert_eq!(
        m.get_node_problems(left),
        vec![NodeProblem::MissingTransition(' '), NodeProblem::AmbiguousTransition('0')]
    );
    assert_eq!(m.get_node_problems(stop), vec![]);
    assert_eq!(
        m.get_node_problems(lonely),
        vec![
            NodeProblem::NotAvailable,
            NodeProblem::MissingTransition(' '),
            NodeProblem::MissingTransition('0'),
            NodeProblem::MissingTransition('1')
        ]
    );
}

#[test]
fn validate_start_and_stop_rules() {
    let mut m = Submachine::new("m".to_string());
    let start = m.add_node(Action::Start);
    let stop = m.add_node(Action::Stop);
    m.add_edge(symbols(&[' ', '0', '1']), stop, start);
    m.validate(alphabet());
    assert_eq!(
        m.get_node_problems(start),
        vec![
            NodeProblem::NotAvailable,
            NodeProblem::StartNodeIncoming,
            NodeProblem::MissingTransition(' '),
            NodeProblem::MissingTransition('0'),
            NodeProblem::MissingTransition('1')
        ]
    );
    assert_eq!(m.get_node_problems(stop), vec![NodeProblem::NotAvailable, NodeProblem::EndNodeOutgoing]);
}

#[test]
fn validate_twice_is_validate_once() {
    let mut m = Submachine::new("m".to_string());
    let a = m.add_node(Action::Right(2));
    let b = m.add_node(Action::Stop);
    m.add_edge(symbols(&['0']), a, b);
    m.validate(alphabet());
    let first = (m.get_node_problems(a), m.get_node_problems(b));
    m.validate(alphabet());
    assert_eq!((m.get_node_problems(a), m.get_node_problems(b)), first);
}

#[test]
fn transitions_and_edge_lists() {
    let mut m = Submachine::new("m".to_string());
    let a = m.add_node(Action::Start);
    let b = m.add_node(Action::Left(1));
    let c = m.add_node(Action::Stop);
    m.add_edge(symbols(&['0']), a, b);
    m.add_edge(symbols(&['1']), a, c);
    assert_eq!(m.get_transition(a, '0'), Some(b));
    assert_eq!(m.get_transition(a, '1'), Some(c));
    assert_eq!(m.get_transition(a, ' '), None);
    assert_eq!(m.outgoing_edges(a).len(), 2);
    assert_eq!(m.incoming_edges(c).len(), 1);
    assert_eq!(m.incoming_edges(a).len(), 0);
    m.remove_node(b);
    assert_eq!(m.get_transition(a, '0'), None);
    assert_eq!(m.edges_iter().len(), 1);
    assert_eq!(m.nodes_iter().len(), 2);
}

#[test]
fn submachine_name_and_nodes() {
    let mut m = Submachine::new("m".to_string());
    assert_eq!(m.name(), "m");
    m.set_name("n".to_string());
    assert_eq!(m.name(), "n");
    let a = m.add_node(Action::Write('0'));
    m.get_mut_node(a).unwrap().action = Action::Write('1');
    assert_eq!(m.get_node_action(a), Some(&Action::Write('1')));
    let nodes = m.nodes_iter();
    assert_eq!(nodes.len(), 1);
    assert_eq!(nodes[0].0, a);
}

// --- Text fields and labels

#[test]
fn formatted_buffer_keeps_alphabet_and_shows_blank_as_lambda() {
    let a = vec![' ', '0', '1'];
    assert_eq!(formatted_buffer(&a, &"1 2λ0".to_string()), "1λλ0");
    assert_eq!(formatted_buffer(&a, &"".to_string()), "");
}

#[test]
fn buffer_to_load_reads_lambda_as_blank() {
    assert_eq!(buffer_to_load(&"1λ0".to_string()), "1 0");
}

#[test]
fn loading_what_was_formatted() {
    let a = vec![' ', '0', '1'];
    assert_eq!(buffer_to_load(&formatted_buffer(&a, &"0 x1".to_string())), "0 1");
}

#[test]
fn node_labels() {
    assert_eq!(match_node_label(&Action::Start), "○");
    assert_eq!(match_node_label(&Action::Stop), "◎");
    assert_eq!(match_node_label(&Action::Left(3)), "l");
    assert_eq!(match_node_label(&Action::Right(3)), "r");
    assert_eq!(match_node_label(&Action::Write(' ')), "λ");
    assert_eq!(match_node_label(&Action::Write('1')), "1");
    let key = slotmap::SlotMap::<slotmap::DefaultKey, ()>::new().insert(());
    assert_eq!(match_node_label(&Action::Submachine { name: "adder".to_string(), key, power: 1 }), "a");
}

// --- Tape

#[test]
fn tape_reads_and_writes() {
    let mut t = Tape::from_iter(vec!['1', ' ', '0']);
    assert_eq!(t.peek(0), Some('1'));
    assert_eq!(t.peek(5), None);
    assert_eq!(t.read_or_space(5), ' ');
    assert_eq!(t.read_or_lambda(1), 'λ');
    assert_eq!(t.read_or_lambda(2), '0');
    t.write('1', -4);
    assert_eq!(t.peek(-4), Some('1'));
    t.extend_tape(7);
    assert_eq!(t.peek(7), Some(' '));
    t.extend_tape(0);
    assert_eq!(t.peek(0), Some('1'));
    assert_eq!(t.format_tape(-1..=2, true, Some(0)), "[ λ, (1), λ, 0 >");
    t.reset_tape();
    assert_eq!(t.peek(0), None);
    assert_eq!(Tape::new().items().len(), 0);
    assert_eq!(Tape::default().peek(0), None);
}

#[test]
fn tape_format_of_empty_range() {
    let t = Tape::from_iter(vec!['1']);
    let s = t.format_tape(3..=1, true, None);
    assert_eq!(s, "[  >");
}

#[test]
fn read_after_write() {
    let mut tm = TMCore::default();
    tm.seek(10);
    tm.write('1');
    assert_eq!(tm.read(), '1');
    assert_eq!(tm.head_position(), 10);
    // a symbol outside the alphabet is not written
    tm.write('7');
    assert_eq!(tm.read(), '1');
}

#[test]
fn moving_there_and_back() {
    let mut tm = TMCore::default();
    let before = tm.format_tape(-3..=5, true, false);
    tm.left(3);
    tm.right(3);
    assert_eq!(tm.head_position(), 0);
    assert_eq!(tm.format_tape(-3..=5, true, false), before);
    tm.right(2);
    tm.left(2);
    assert_eq!(tm.head_position(), 0);
    assert_eq!(tm.format_tape(-3..=5, true, false), before);
}

#[test]
fn machine_with_tape_and_alphabet() {
    let mut tm = TMCore::with_tape("10", 1, vec![' ', '0', '1']);
    assert_eq!(tm.alphabet(), &[' ', '0', '1']);
    assert_eq!(tm.read(), '0');
    assert_eq!(tm.read_index(0), '1');
    tm.write_at(5, '1');
    assert_eq!(tm.read_index(5), '1');
    assert_eq!(tm.tape_items().get(&5), Some(&'1'));
    tm.reset_tape();
    assert_eq!(tm.read_index(0), ' ');
    let fresh = TMCore::new(vec![' ', '1']);
    assert_eq!(fresh.head_position(), 0);
    assert_eq!(fresh.read(), ' ');
}

#[test]
fn format_tape_shows_written_blank_as_lambda_only_when_asked() {
    let mut tm = TMCore::default();
    tm.write_at(1, ' ');
    assert_eq!(tm.format_tape(0..=3, true, true), "[ (λ), λ, 1, λ >");
    assert_eq!(tm.format_tape(0..=3, false, false), "[  ,  , 1,   >");
}

#[test]
fn tape_format_without_lambda() {
    let t = Tape::from_iter(" 0".chars().collect());
    assert_eq!(t.format_tape(0..=1, false, None), "[  , 0 >");
    assert_eq!(t.format_tape(0..=1, true, None), "[ λ, 0 >");
    // a cell that was never written still shows lambda
    assert_eq!(t.format_tape(0..=2, false, Some(2)), "[  , 0, (λ) >");
}

#[test]
fn ambiguous_transition_takes_first_listed_edge() {
    let mut m = Submachine::new("m".to_string());
    let a = m.add_node(Action::Start);
    let b = m.add_node(Action::Left(1));
    let c = m.add_node(Action::Right(1));
    m.add_edge(symbols(&['0']), a, b);
    m.add_edge(symbols(&['0', '1']), a, c);
    assert_eq!(m.get_transition(a, '0'), Some(b));
    assert_eq!(m.get_transition(a, '1'), Some(c));
    let out = m.outgoing_edges(a);
    assert_eq!(out.len(), 2);
    assert_eq!(out[0].target, b);
    assert_eq!(out[1].target, c);
}

#[test]
fn removing_a_node_just_added_restores_the_machine() {
    let mut m = Submachine::new("m".to_string());
    let a = m.add_node(Action::Start);
    let b = m.add_node(Action::Stop);
    m.add_edge(symbols(&['1']), a, b);
    let before: Vec<_> = m.nodes_iter().into_iter().map(|(k, n)| (k, n.action)).collect();
    let k = m.add_node(Action::Write('1'));
    m.remove_node(k);
    let after: Vec<_> = m.nodes_iter().into_iter().map(|(k, n)| (k, n.action)).collect();
    assert_eq!(before, after);
    let edges = m.edges_iter();
    assert_eq!(edges.len(), 1);
    assert_eq!((edges[0].1.source, edges[0].1.target), (a, b));
}
