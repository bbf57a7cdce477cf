use slotmap::DefaultKey;
use vstd::prelude::*;
use vstd::seq_lib::lemma_seq_contains_after_push;

use crate::alphabet::{alphabet_fault, scan_fault, ValidatedAlphabet};
use crate::slots::{
    edge_dense, edge_map_get, edge_map_get_mut, edge_map_insert, edge_map_keys, edge_map_new,
    edge_map_remove, edge_order, edge_slots, key_eq, key_slot, node_dense, node_map_get,
    node_map_get_mut, node_map_insert, node_map_keys, node_map_new, node_map_remove, node_order,
    node_slots, problem_map_clear, problem_map_get, problem_map_insert, problem_map_new,
    problem_slots, EdgeSlots, NodeSlots, ProblemSlots,
};

verus! {

/// Names a submachine of a project.
pub type SubmachineKey = DefaultKey;

/// Names a node of a submachine.
pub type NodeKey = DefaultKey;

/// Names an edge of a submachine.
pub type EdgeKey = DefaultKey;

/// Whether a machine runs.
#[derive(Debug, Clone, PartialEq, Eq)]
pub enum MachineState {
    Stopped,
    Running,
    Halted(HaltReason),
    Error(String),
}

/// Why a machine halted.
#[derive(Debug, Clone, Copy, PartialEq, Eq, Structural)]
pub enum HaltReason {
    EndAction,
    NoTransition,
    InvalidStartState,
    SubmachineReturned,
}

/// What one step of a machine did.
#[derive(Debug, Clone, PartialEq, Eq)]
pub enum StepResult {
    Executed(usize),
    Halted(HaltReason),
    Error(String),
}

/// Where a running submachine returns to.
#[derive(Debug, Clone, Copy)]
pub struct SubmachineFrame {
    pub parent_submachine_id: usize,
    pub parent_state: Option<NodeKey>,
}

// --- Transition symbols

/// Why a set of transition symbols was refused.
#[derive(Debug, Clone, Copy, PartialEq, Eq, Structural)]
pub enum TransitionSymbolsError {
    Empty,
    AlphabetDoesNotContain(char),
    DuplicatedCharacter(char),
}

impl TransitionSymbolsError {
    /// The message that explains the error to a user.
    pub fn message(&self) -> (m: &'static str)
        ensures
            m@ == match self {
                TransitionSymbolsError::Empty => "Symbols must not be empty"@,
                TransitionSymbolsError::AlphabetDoesNotContain(_) => "Alphabet doesn't contain selected character."@,
                TransitionSymbolsError::DuplicatedCharacter(_) => "Alphabet contains duplicated characters."@,
            },
    {
        match self {
            TransitionSymbolsError::Empty => "Symbols must not be empty",
            TransitionSymbolsError::AlphabetDoesNotContain(_) => "Alphabet doesn't contain selected character.",
            TransitionSymbolsError::DuplicatedCharacter(_) => "Alphabet contains duplicated characters.",
        }
    }
}

/// The first fault met when the symbols are checked one after another: one
/// outside the alphabet, or one met before.
pub open spec fn symbols_scan_fault(s: Seq<char>, alphabet: Seq<char>) -> Option<TransitionSymbolsError>
    decreases s.len(),
{
    if s.len() == 0 {
        None
    } else {
        match symbols_scan_fault(s.drop_last(), alphabet) {
            Some(e) => Some(e),
            None => if !alphabet.contains(s.last()) {
                Some(TransitionSymbolsError::AlphabetDoesNotContain(s.last()))
            } else if s.drop_last().contains(s.last()) {
                Some(TransitionSymbolsError::DuplicatedCharacter(s.last()))
            } else {
                None
            },
        }
    }
}

/// Why `s` is no set of transition symbols over `alphabet`, if it is none.
pub open spec fn symbols_fault(s: Seq<char>, alphabet: Seq<char>) -> Option<TransitionSymbolsError> {
    match symbols_scan_fault(s, alphabet) {
        Some(e) => Some(e),
        None => if s.len() == 0 {
            Some(TransitionSymbolsError::Empty)
        } else {
            None
        },
    }
}

/// Once a prefix shows a fault, the whole sequence shows that same fault.
pub proof fn lemma_symbols_fault_prefix(s: Seq<char>, alphabet: Seq<char>, k: int)
    requires
        0 <= k <= s.len(),
        symbols_scan_fault(s.take(k), alphabet) is Some,
    ensures
        symbols_scan_fault(s, alphabet) == symbols_scan_fault(s.take(k), alphabet),
    decreases s.len() - k,
{
    if k < s.len() {
        assert(s.take(k + 1).drop_last() =~= s.take(k));
        lemma_symbols_fault_prefix(s, alphabet, k + 1);
    } else {
        assert(s.take(k) =~= s);
    }
}

/// Symbols that pass the alphabet's own scan and all belong to `alphabet`
/// pass the scan of transition symbols.
proof fn lemma_scan_symbols(s: Seq<char>, alphabet: Seq<char>)
    requires
        scan_fault(s) is None,
        forall|i: int| 0 <= i < s.len() ==> alphabet.contains(#[trigger] s[i]),
    ensures
        symbols_scan_fault(s, alphabet) is None,
    decreases s.len(),
{
    if s.len() > 0 {
        lemma_scan_symbols(s.drop_last(), alphabet);
        assert(s.last() == s[s.len() - 1]);
    }
}

/// The whole of a valid alphabet is a valid set of transition symbols
/// over it.
pub proof fn lemma_alphabet_symbols(alphabet: Seq<char>)
    requires
        alphabet_fault(alphabet) is None,
    ensures
        symbols_fault(alphabet, alphabet) is None,
{
    assert forall|i: int| 0 <= i < alphabet.len() implies alphabet.contains(#[trigger] alphabet[i]) by {}
    lemma_scan_symbols(alphabet, alphabet);
}

/// The symbols an edge accepts: a non-empty set of symbols of the alphabet.
#[derive(Debug)]
pub struct TransitionSymbols {
    symbols: Vec<char>,
}

impl View for TransitionSymbols {
    type V = Seq<char>;

    /// The symbols, each once, in the order they were given.
    closed spec fn view(&self) -> Seq<char> {
        self.symbols@
    }
}

impl TransitionSymbols {
    #[verifier::type_invariant]
    spec fn well_formed(&self) -> bool {
        self.symbols@.no_duplicates() && self.symbols@.len() > 0
    }

    /// Checks that `symbols` are distinct symbols of `alphabet`, at least one.
    pub fn new(symbols: Vec<char>, alphabet: &ValidatedAlphabet) -> (r: Result<Self, TransitionSymbolsError>)
        ensures
            r is Ok <==> symbols_fault(symbols@, alphabet@) is None,
            r matches Ok(t) ==> t@ == symbols@,
            r matches Err(e) ==> symbols_fault(symbols@, alphabet@) == Some(e),
    {
        let letters = alphabet.iter();
        let n = symbols.len();
        let mut i: usize = 0;
        while i < n
            invariant
                n == symbols@.len(),
                letters@ == alphabet@,
                i <= n,
                symbols_scan_fault(symbols@.take(i as int), alphabet@) is None,
                symbols@.take(i as int).no_duplicates(),
            decreases n - i,
        {
            let c = symbols[i];
            let ghost prefix = symbols@.take(i as int);
            proof {
                assert(symbols@.take(i as int + 1).drop_last() =~= prefix);
                assert(symbols@.take(i as int + 1).last() == c);
            }
            if !slice_contains(letters, c) {
                proof {
                    lemma_symbols_fault_prefix(symbols@, alphabet@, i as int + 1);
                }
                return Err(TransitionSymbolsError::AlphabetDoesNotContain(c));
            }
            let mut j: usize = 0;
            while j < i
                invariant
                    j <= i < n == symbols@.len(),
                    c == symbols@[i as int],
                    alphabet@.contains(c),
                    prefix == symbols@.take(i as int),
                    symbols_scan_fault(prefix, alphabet@) is None,
                    symbols@.take(i as int + 1).drop_last() == prefix,
                    symbols@.take(i as int + 1).last() == c,
                    forall|k: int| 0 <= k < j ==> symbols@[k] != c,
                decreases i - j,
            {
                if symbols[j] == c {
                    proof {
                        assert(prefix[j as int] == c);
                        assert(prefix.contains(c));
                        lemma_symbols_fault_prefix(symbols@, alphabet@, i as int + 1);
                    }
                    return Err(TransitionSymbolsError::DuplicatedCharacter(c));
                }
                j += 1;
            }
            proof {
                assert(!prefix.contains(c));
                assert(symbols@.take(i as int + 1) =~= prefix.push(c));
            }
            i += 1;
        }
        proof {
            assert(symbols@.take(n as int) =~= symbols@);
        }
        if n == 0 {
            return Err(TransitionSymbolsError::Empty);
        }
        Ok(TransitionSymbols { symbols })
    }

    /// Whether the set holds `symbol`.
    pub fn contains(&self, symbol: char) -> (b: bool)
        ensures
            b == self@.contains(symbol),
    {
        slice_contains(self.symbols.as_slice(), symbol)
    }

    /// The symbols one after another, each once, in the order they were given.
    pub fn iter(&self) -> (it: TransitionSymbolsIter)
        ensures
            it@ == self@,
            it@.no_duplicates(),
            it@.len() > 0,
    {
        proof {
            use_type_invariant(self);
        }
        let items = self.symbols.clone();
        assert(items@ =~= self.symbols@);
        let it = TransitionSymbolsIter { items, pos: 0 };
        assert(it@ =~= self.symbols@);
        it
    }
}

impl Clone for TransitionSymbols {
    fn clone(&self) -> (r: Self)
        ensures
            r@ == self@,
    {
        proof {
            use_type_invariant(self);
        }
        let symbols = self.symbols.clone();
        assert(symbols@ =~= self.symbols@);
        TransitionSymbols { symbols }
    }
}

/// Hands out the symbols of a set one by one.
pub struct TransitionSymbolsIter {
    items: Vec<char>,
    pos: usize,
}

impl View for TransitionSymbolsIter {
    type V = Seq<char>;

    /// The symbols still to come.
    closed spec fn view(&self) -> Seq<char> {
        self.items@.skip(self.pos as int)
    }
}

impl TransitionSymbolsIter {
    #[verifier::type_invariant]
    spec fn in_range(&self) -> bool {
        self.pos <= self.items@.len()
    }

    /// The next symbol, if any is left.
    pub fn next(&mut self) -> (r: Option<char>)
        ensures
            old(self)@.len() == 0 ==> r is None && final(self)@ == old(self)@,
            old(self)@.len() > 0 ==> r == Some(old(self)@[0]) && final(self)@ == old(self)@.drop_first(),
    {
        proof {
            use_type_invariant(&*self);
        }
        if self.pos < self.items.len() {
            let c = self.items[self.pos];
            self.pos = self.pos + 1;
            assert(self@ =~= old(self)@.drop_first());
            Some(c)
        } else {
            None
        }
    }
}


// - Nodes and edges

/// What a node does when the machine reaches it.
#[derive(Debug, PartialEq, Eq)]
pub enum Action {
    Start,
    Stop,
    Left(u32),
    Right(u32),
    Write(char),
    Submachine { name: String, key: SubmachineKey, power: u32 },
}

impl Clone for Action {
    fn clone(&self) -> (r: Self)
        ensures
            r == *self,
    {
        match self {
            Action::Start => Action::Start,
            Action::Stop => Action::Stop,
            Action::Left(n) => Action::Left(*n),
            Action::Right(n) => Action::Right(*n),
            Action::Write(c) => Action::Write(*c),
            Action::Submachine { name, key, power } => Action::Submachine {
                name: name.clone(),
                key: *key,
                power: *power,
            },
        }
    }
}

/// A state of a submachine.
#[derive(Debug, PartialEq, Eq)]
pub struct Node {
    pub action: Action,
}

impl Clone for Node {
    fn clone(&self) -> (r: Self)
        ensures
            r == *self,
    {
        Node { action: self.action.clone() }
    }
}

/// A transition: from `source` to `target` on any of `chars`.
#[derive(Debug)]
pub struct Edge {
    pub chars: TransitionSymbols,
    pub source: NodeKey,
    pub target: NodeKey,
}

/// An edge as a value: its symbols and its two ends.
pub struct EdgeView {
    pub chars: Seq<char>,
    pub source: NodeKey,
    pub target: NodeKey,
}

impl View for Edge {
    type V = EdgeView;

    open spec fn view(&self) -> EdgeView {
        EdgeView { chars: self.chars@, source: self.source, target: self.target }
    }
}

impl Clone for Edge {
    fn clone(&self) -> (r: Self)
        ensures
            r@ == self@,
    {
        Edge { chars: self.chars.clone(), source: self.source, target: self.target }
    }
}

impl Edge {
    /// Whether the transition may be taken on `symbol`.
    pub fn accepts(&self, symbol: char) -> (b: bool)
        ensures
            b == self@.chars.contains(symbol),
    {
        let mut it = self.chars.iter();
        let ghost all = it@;
        let ghost mut k: int = 0;
        assert(all.skip(0) =~= all);
        loop
            invariant
                0 <= k <= all.len(),
                it@ == all.skip(k),
                all == self@.chars,
                forall|j: int| 0 <= j < k ==> all[j] != symbol,
            decreases all.len() - k,
        {
            match it.next() {
                Some(c) => {
                    proof {
                        assert(all[k] == c);
                        assert(all.skip(k).drop_first() =~= all.skip(k + 1));
                        k = k + 1;
                    }
                    if c == symbol {
                        assert(all.contains(symbol));
                        return true;
                    }
                },
                None => {
                    assert(!all.contains(symbol));
                    return false;
                },
            }
        }
    }
}

/// A fault found in a node by `Submachine::validate`.
#[derive(Debug, Clone, Copy, PartialEq, Eq, Structural)]
pub enum NodeProblem {
    NotAvailable,
    MissingTransition(char),
    AmbiguousTransition(char),
    StartNodeIncoming,
    EndNodeOutgoing,
}


// - The graph of a submachine

/// A submachine as a value: its name, its nodes' actions, its edges and the
/// problems the last validation found.
pub struct SubmachineView {
    pub name: Seq<char>,
    pub nodes: Map<NodeKey, Action>,
    pub edges: Map<EdgeKey, EdgeView>,
    pub problems: Map<NodeKey, Seq<NodeProblem>>,
}

/// Edge `e` exists and leaves node `n`.
pub open spec fn leads_from(edges: Map<EdgeKey, EdgeView>, e: EdgeKey, n: NodeKey) -> bool {
    edges.contains_key(e) && edges[e].source == n
}

/// Edge `e` exists and enters node `n`.
pub open spec fn leads_to(edges: Map<EdgeKey, EdgeView>, e: EdgeKey, n: NodeKey) -> bool {
    edges.contains_key(e) && edges[e].target == n
}

/// Some edge leaves `n`.
pub open spec fn has_outgoing(edges: Map<EdgeKey, EdgeView>, n: NodeKey) -> bool {
    exists|e: EdgeKey| #[trigger] leads_from(edges, e, n)
}

/// Some edge enters `n`.
pub open spec fn has_incoming(edges: Map<EdgeKey, EdgeView>, n: NodeKey) -> bool {
    exists|e: EdgeKey| #[trigger] leads_to(edges, e, n)
}

/// Edge `e` leaves `n` on symbol `c`.
pub open spec fn takes(edges: Map<EdgeKey, EdgeView>, e: EdgeKey, n: NodeKey, c: char) -> bool {
    leads_from(edges, e, n) && edges[e].chars.contains(c)
}

/// No edge leaves `n` on `c`.
pub open spec fn no_transition(edges: Map<EdgeKey, EdgeView>, n: NodeKey, c: char) -> bool {
    !exists|e: EdgeKey| #[trigger] takes(edges, e, n, c)
}

/// Two different edges leave `n` on `c`.
pub open spec fn ambiguous_transition(edges: Map<EdgeKey, EdgeView>, n: NodeKey, c: char) -> bool {
    exists|e1: EdgeKey, e2: EdgeKey| e1 != e2 && #[trigger] takes(edges, e1, n, c) && #[trigger] takes(edges, e2, n, c)
}

/// The problem of `n` with symbol `c`: a missing transition when no edge
/// leaves `n` on it, an ambiguous one when two do.
pub open spec fn symbol_problem(edges: Map<EdgeKey, EdgeView>, n: NodeKey, c: char) -> Option<NodeProblem> {
    if no_transition(edges, n, c) {
        Some(NodeProblem::MissingTransition(c))
    } else if ambiguous_transition(edges, n, c) {
        Some(NodeProblem::AmbiguousTransition(c))
    } else {
        None
    }
}

/// The per-symbol problem rule of node `n`, as a function.
pub open spec fn problem_rule(edges: Map<EdgeKey, EdgeView>, n: NodeKey) -> spec_fn(char) -> Option<NodeProblem> {
    |c: char| symbol_problem(edges, n, c)
}

/// The problems of `n` with the symbols of `letters`, in their order.
pub open spec fn symbol_problems(edges: Map<EdgeKey, EdgeView>, n: NodeKey, letters: Seq<char>) -> Seq<NodeProblem> {
    letters.filter_map(problem_rule(edges, n))
}

/// The problems of node `n` doing `action`: a start node needs an edge out,
/// none in, and one transition per symbol; a stop node needs an edge in and
/// none out; any other node needs some edge and one transition per symbol.
pub open spec fn node_problems(action: Action, edges: Map<EdgeKey, EdgeView>, n: NodeKey, letters: Seq<char>) -> Seq<NodeProblem> {
    match action {
        Action::Start => (if !has_outgoing(edges, n) {
            seq![NodeProblem::NotAvailable]
        } else {
            Seq::empty()
        }) + (if has_incoming(edges, n) {
            seq![NodeProblem::StartNodeIncoming]
        } else {
            Seq::empty()
        }) + symbol_problems(edges, n, letters),
        Action::Stop => (if !has_incoming(edges, n) {
            seq![NodeProblem::NotAvailable]
        } else {
            Seq::empty()
        }) + (if has_outgoing(edges, n) {
            seq![NodeProblem::EndNodeOutgoing]
        } else {
            Seq::empty()
        }),
        _ => (if !has_incoming(edges, n) && !has_outgoing(edges, n) {
            seq![NodeProblem::NotAvailable]
        } else {
            Seq::empty()
        }) + symbol_problems(edges, n, letters),
    }
}

/// The problems of every node that has some.
pub open spec fn all_problems(nodes: Map<NodeKey, Action>, edges: Map<EdgeKey, EdgeView>, letters: Seq<char>) -> Map<NodeKey, Seq<NodeProblem>> {
    Map::new(
        |k: NodeKey| nodes.contains_key(k) && node_problems(nodes[k], edges, k, letters).len() > 0,
        |k: NodeKey| node_problems(nodes[k], edges, k, letters),
    )
}

/// The edges that neither leave nor enter `n`.
pub open spec fn edges_avoiding(edges: Map<EdgeKey, EdgeView>, n: NodeKey) -> Map<EdgeKey, EdgeView> {
    edges.filter_keys(|e: EdgeKey| edges[e].source != n && edges[e].target != n)
}

/// Whether the edge `e` leaves (`outgoing`) or enters `n`, as a function.
pub open spec fn touching(edges: Map<EdgeKey, EdgeView>, n: NodeKey, outgoing: bool) -> spec_fn(EdgeKey) -> bool {
    |e: EdgeKey| if outgoing { edges[e].source == n } else { edges[e].target == n }
}

/// The edge a key names, as a function.
pub open spec fn edge_at(edges: Map<EdgeKey, EdgeView>) -> spec_fn(EdgeKey) -> EdgeView {
    |e: EdgeKey| edges[e]
}

/// The action of a node, as a function.
pub open spec fn action_of() -> spec_fn(Node) -> Action {
    |n: Node| n.action
}

/// The value of an edge, as a function.
pub open spec fn edge_value() -> spec_fn(Edge) -> EdgeView {
    |e: Edge| e@
}

/// A submachine: a graph of nodes, each with an action, joined by edges
/// that carry transition symbols.
#[derive(Debug)]
pub struct Submachine {
    name: String,
    nodes: NodeSlots,
    edges: EdgeSlots,
    problematic_nodes: ProblemSlots,
}

impl View for Submachine {
    type V = SubmachineView;

    closed spec fn view(&self) -> SubmachineView {
        SubmachineView {
            name: self.name@,
            nodes: node_slots(self.nodes).map_values(action_of()),
            edges: edge_slots(self.edges).map_values(edge_value()),
            problems: problem_slots(self.problematic_nodes),
        }
    }
}

impl Submachine {
    /// The keys of the nodes in the order in which `nodes_iter` lists them.
    pub closed spec fn node_order(&self) -> Seq<NodeKey> {
        node_order(self.nodes)
    }

    /// The keys of the edges in the order in which `edges_iter` lists them.
    pub closed spec fn edge_order(&self) -> Seq<EdgeKey> {
        edge_order(self.edges)
    }

    /// No node or edge was ever taken out, so each new one is listed last.
    pub closed spec fn dense(&self) -> bool {
        node_dense(self.nodes) && edge_dense(self.edges)
    }

    /// The listings name each node and each edge exactly once; every
    /// operation keeps this.
    pub open spec fn well_listed(&self) -> bool {
        &&& self.node_order().no_duplicates()
        &&& forall|k: NodeKey| #[trigger] self.node_order().contains(k) <==> self@.nodes.contains_key(k)
        &&& self.edge_order().no_duplicates()
        &&& forall|k: EdgeKey| #[trigger] self.edge_order().contains(k) <==> self@.edges.contains_key(k)
    }

    /// An empty submachine called `name`.
    pub fn new(name: String) -> (m: Self)
        ensures
            m.well_listed(),
            m@.name == name@,
            m@.nodes.is_empty(),
            m@.edges.is_empty(),
            m@.problems.is_empty(),
            m@.nodes.dom().finite(),
            m@.edges.dom().finite(),
            m.node_order().len() == 0,
            m.edge_order().len() == 0,
            m.dense(),
    {
        Submachine {
            name,
            nodes: node_map_new(),
            problematic_nodes: problem_map_new(),
            edges: edge_map_new(),
        }
    }

    /// Adds a node doing `action` under a fresh key.
    pub fn add_node(&mut self, action: Action) -> (k: NodeKey)
        requires
            old(self)@.nodes.dom().finite(),
            old(self)@.nodes.len() < 0xffff_fffe,
        ensures
            old(self).well_listed() ==> final(self).well_listed(),
            !old(self)@.nodes.contains_key(k),
            final(self)@ == (SubmachineView { nodes: old(self)@.nodes.insert(k, action), ..old(self)@ }),
            final(self)@.nodes.dom().finite(),
            final(self).edge_order() == old(self).edge_order(),
            old(self).dense() ==> final(self).dense() && final(self).node_order() == old(self).node_order().push(k),
    {
        let ghost action_copy = action;
        assert(self@.nodes.dom() =~= node_slots(self.nodes).dom());
        let k = node_map_insert(&mut self.nodes, Node { action });
        assert(self@.nodes =~= old(self)@.nodes.insert(k, action_copy));
        k
    }

    /// Adds an edge from `source` to `target` on `chars` under a fresh key.
    pub fn add_edge(&mut self, chars: TransitionSymbols, source: NodeKey, target: NodeKey) -> (k: EdgeKey)
        requires
            old(self)@.edges.dom().finite(),
            old(self)@.edges.len() < 0xffff_fffe,
        ensures
            old(self).well_listed() ==> final(self).well_listed(),
            !old(self)@.edges.contains_key(k),
            final(self)@ == (SubmachineView {
                edges: old(self)@.edges.insert(k, EdgeView { chars: chars@, source, target }),
                ..old(self)@
            }),
            final(self)@.edges.dom().finite(),
            final(self).node_order() == old(self).node_order(),
            old(self).dense() ==> final(self).dense() && final(self).edge_order() == old(self).edge_order().push(k),
    {
        let ghost cv = chars@;
        assert(self@.edges.dom() =~= edge_slots(self.edges).dom());
        let k = edge_map_insert(&mut self.edges, Edge { chars, source, target });
        assert(self@.edges =~= old(self)@.edges.insert(k, EdgeView { chars: cv, source, target }));
        k
    }

    /// Every node with its key, each once, in slot order.
    pub fn nodes_iter(&self) -> (v: Vec<(NodeKey, Node)>)
        ensures
            v@.map_values(|p: (NodeKey, Node)| p.0) == self.node_order(),
            v@.map_values(|p: (NodeKey, Node)| p.0).no_duplicates(),
            forall|i: int, j: int| 0 <= i < v@.len() && 0 <= j < v@.len() && i != j ==> key_slot(v@[i].0) != key_slot(v@[j].0),
            forall|i: int| 0 <= i < v@.len() ==> key_slot(#[trigger] v@[i].0) != 0xffff_ffff,
            forall|k: NodeKey| self@.nodes.contains_key(k) <==> exists|i: int| 0 <= i < v@.len() && #[trigger] v@[i].0 == k,
            forall|i: int| 0 <= i < v@.len() ==> self@.nodes.contains_key(#[trigger] v@[i].0) && v@[i].1.action == self@.nodes[v@[i].0],
    {
        let ks = node_map_keys(&self.nodes);
        let mut out: Vec<(NodeKey, Node)> = Vec::new();
        for i in 0..ks.len()
            invariant
                ks@.no_duplicates(),
                ks@ == self.node_order(),
                forall|a: int, b: int|
                    0 <= a < ks@.len() && 0 <= b < ks@.len() && a != b ==> key_slot(ks@[a]) != key_slot(ks@[b]),
                forall|a: int| 0 <= a < ks@.len() ==> key_slot(#[trigger] ks@[a]) != 0xffff_ffff,
                forall|k: NodeKey| #[trigger] ks@.contains(k) <==> node_slots(self.nodes).contains_key(k),
                out@.len() == i,
                forall|j: int| 0 <= j < i ==> #[trigger] out@[j].0 == ks@[j],
                forall|j: int| 0 <= j < i ==> self@.nodes.contains_key(#[trigger] out@[j].0) && out@[j].1.action == self@.nodes[out@[j].0],
        {
            let k = ks[i];
            assert(ks@.contains(k));
            let node = node_map_get(&self.nodes, k).unwrap();
            out.push((k, node.clone()));
        }
        proof {
            assert(out@.map_values(|p: (NodeKey, Node)| p.0) =~= ks@);
            assert forall|k: NodeKey| self@.nodes.contains_key(k) implies exists|i: int| 0 <= i < out@.len() && #[trigger] out@[i].0 == k by {
                assert(ks@.contains(k));
                let i = ks@.index_of(k);
                assert(out@[i].0 == k);
            }
        }
        out
    }

    /// The node stored under `key`.
    pub fn get_node(&self, key: NodeKey) -> (r: Option<&Node>)
        ensures
            r matches Some(n) ==> self@.nodes.contains_key(key) && n.action == self@.nodes[key],
            r is None ==> !self@.nodes.contains_key(key),
    {
        node_map_get(&self.nodes, key)
    }

    /// The node stored under `key`, to change in place.
    pub fn get_mut_node(&mut self, key: NodeKey) -> (r: Option<&mut Node>)
        ensures
            old(self).well_listed() ==> final(self).well_listed(),
            r is Some <==> old(self)@.nodes.contains_key(key),
            r matches Some(n) ==> n.action == old(self)@.nodes[key] && final(self)@ == (SubmachineView {
                nodes: old(self)@.nodes.insert(key, final(n).action),
                ..old(self)@
            }),
            r is None ==> final(self)@ == old(self)@,
    {
        let ghost before = node_slots(self.nodes);
        proof {
            assert forall|n: Node| #[trigger] before.insert(key, n).map_values(action_of())
                == before.map_values(action_of()).insert(key, n.action) by {
                assert(before.insert(key, n).map_values(action_of()) =~= before.map_values(
                    action_of(),
                ).insert(key, n.action));
            }
        }
        node_map_get_mut(&mut self.nodes, key)
    }

    /// What the node stored under `key` does.
    pub fn get_node_action(&self, key: NodeKey) -> (r: Option<&Action>)
        ensures
            r matches Some(a) ==> self@.nodes.contains_key(key) && *a == self@.nodes[key],
            r is None ==> !self@.nodes.contains_key(key),
    {
        match node_map_get(&self.nodes, key) {
            Some(node) => Some(&node.action),
            None => None,
        }
    }

    /// The problems the last validation found in the node `key`.
    pub fn get_node_problems(&self, key: NodeKey) -> (v: Vec<NodeProblem>)
        ensures
            v@ == (if self@.problems.contains_key(key) {
                self@.problems[key]
            } else {
                Seq::empty()
            }),
    {
        match problem_map_get(&self.problematic_nodes, key) {
            Some(v) => v,
            None => Vec::new(),
        }
    }

    /// Every edge with its key, each once, in slot order.
    pub fn edges_iter(&self) -> (v: Vec<(EdgeKey, Edge)>)
        ensures
            v@.map_values(|p: (EdgeKey, Edge)| p.0) == self.edge_order(),
            v@.map_values(|p: (EdgeKey, Edge)| p.0).no_duplicates(),
            forall|k: EdgeKey| self@.edges.contains_key(k) <==> exists|i: int| 0 <= i < v@.len() && #[trigger] v@[i].0 == k,
            forall|i: int| 0 <= i < v@.len() ==> self@.edges.contains_key(#[trigger] v@[i].0) && v@[i].1@ == self@.edges[v@[i].0],
    {
        let ks = edge_map_keys(&self.edges);
        let mut out: Vec<(EdgeKey, Edge)> = Vec::new();
        for i in 0..ks.len()
            invariant
                ks@.no_duplicates(),
                ks@ == self.edge_order(),
                forall|k: EdgeKey| #[trigger] ks@.contains(k) <==> edge_slots(self.edges).contains_key(k),
                out@.len() == i,
                forall|j: int| 0 <= j < i ==> #[trigger] out@[j].0 == ks@[j],
                forall|j: int| 0 <= j < i ==> self@.edges.contains_key(#[trigger] out@[j].0) && out@[j].1@ == self@.edges[out@[j].0],
        {
            let k = ks[i];
            assert(ks@.contains(k));
            let edge = edge_map_get(&self.edges, k).unwrap();
            out.push((k, edge.clone()));
        }
        proof {
            assert(out@.map_values(|p: (EdgeKey, Edge)| p.0) =~= ks@);
            assert forall|k: EdgeKey| self@.edges.contains_key(k) implies exists|i: int| 0 <= i < out@.len() && #[trigger] out@[i].0 == k by {
                assert(ks@.contains(k));
                let i = ks@.index_of(k);
                assert(out@[i].0 == k);
            }
        }
        out
    }

    /// The edge stored under `key`.
    pub fn get_edge(&self, key: EdgeKey) -> (r: Option<&Edge>)
        ensures
            r matches Some(e) ==> self@.edges.contains_key(key) && e@ == self@.edges[key],
            r is None ==> !self@.edges.contains_key(key),
    {
        edge_map_get(&self.edges, key)
    }

    /// The edge stored under `key`, to change in place.
    pub fn get_edge_mut(&mut self, key: EdgeKey) -> (r: Option<&mut Edge>)
        ensures
            old(self).well_listed() ==> final(self).well_listed(),
            r is Some <==> old(self)@.edges.contains_key(key),
            r matches Some(e) ==> e@ == old(self)@.edges[key] && final(self)@ == (SubmachineView {
                edges: old(self)@.edges.insert(key, final(e)@),
                ..old(self)@
            }),
            r is None ==> final(self)@ == old(self)@,
    {
        let ghost before = edge_slots(self.edges);
        proof {
            assert forall|e: Edge| #[trigger] before.insert(key, e).map_values(edge_value())
                == before.map_values(edge_value()).insert(key, e@) by {
                assert(before.insert(key, e).map_values(edge_value()) =~= before.map_values(
                    edge_value(),
                ).insert(key, e@));
            }
        }
        edge_map_get_mut(&mut self.edges, key)
    }

    /// The edge stored under a key known to be in use.
    fn edge_at(&self, k: EdgeKey) -> (e: &Edge)
        requires
            self@.edges.contains_key(k),
        ensures
            e@ == self@.edges[k],
    {
        edge_map_get(&self.edges, k).unwrap()
    }

    /// Whether some edge listed in `ks` leaves (`outgoing`) or enters `n`.
    fn touches(&self, ks: &Vec<EdgeKey>, n: NodeKey, outgoing: bool) -> (b: bool)
        requires
            forall|e: EdgeKey| #[trigger] ks@.contains(e) <==> self@.edges.contains_key(e),
        ensures
            b == (if outgoing {
                has_outgoing(self@.edges, n)
            } else {
                has_incoming(self@.edges, n)
            }),
    {
        let mut i: usize = 0;
        while i < ks.len()
            invariant
                i <= ks@.len(),
                forall|e: EdgeKey| #[trigger] ks@.contains(e) <==> self@.edges.contains_key(e),
                forall|j: int| 0 <= j < i ==> !(if outgoing {
                    leads_from(self@.edges, #[trigger] ks@[j], n)
                } else {
                    leads_to(self@.edges, ks@[j], n)
                }),
            decreases ks.len() - i,
        {
            let k = ks[i];
            assert(ks@.contains(k));
            let e = self.edge_at(k);
            let end = if outgoing {
                e.source
            } else {
                e.target
            };
            if key_eq(end, n) {
                assert(if outgoing {
                    leads_from(self@.edges, k, n)
                } else {
                    leads_to(self@.edges, k, n)
                });
                return true;
            }
            i += 1;
        }
        proof {
            if outgoing && has_outgoing(self@.edges, n) {
                let e = choose|e: EdgeKey| #[trigger] leads_from(self@.edges, e, n);
                assert(ks@.contains(e));
                let j = ks@.index_of(e);
                assert(!leads_from(self@.edges, ks@[j], n));
            }
            if !outgoing && has_incoming(self@.edges, n) {
                let e = choose|e: EdgeKey| #[trigger] leads_to(self@.edges, e, n);
                assert(ks@.contains(e));
                let j = ks@.index_of(e);
                assert(!leads_to(self@.edges, ks@[j], n));
            }
        }
        false
    }

    /// How many edges leave `n` on `c`: 0, 1, or 2 for two or more.
    fn transitions_on(&self, ks: &Vec<EdgeKey>, n: NodeKey, c: char) -> (count: u8)
        requires
            ks@.no_duplicates(),
            forall|e: EdgeKey| #[trigger] ks@.contains(e) <==> self@.edges.contains_key(e),
        ensures
            count <= 2,
            (count == 0) == no_transition(self@.edges, n, c),
            (count == 2) == ambiguous_transition(self@.edges, n, c),
    {
        broadcast use vstd::seq_lib::group_seq_properties;

        let mut count: u8 = 0;
        let ghost mut seen: Seq<EdgeKey> = Seq::empty();
        let mut i: usize = 0;
        while i < ks.len()
            invariant
                i <= ks@.len(),
                ks@.no_duplicates(),
                forall|e: EdgeKey| #[trigger] ks@.contains(e) <==> self@.edges.contains_key(e),
                seen.no_duplicates(),
                forall|e: EdgeKey| #[trigger] seen.contains(e) <==> (ks@.take(i as int).contains(e) && takes(self@.edges, e, n, c)),
                count == (if seen.len() >= 2 { 2 } else { seen.len() }),
            decreases ks.len() - i,
        {
            let k = ks[i];
            assert(ks@.contains(k));
            let e = self.edge_at(k);
            let ghost before = seen;
            proof {
                assert(ks@.take(i as int + 1) =~= ks@.take(i as int).push(k));
                assert(!ks@.take(i as int).contains(k)) by {
                    if ks@.take(i as int).contains(k) {
                        let j = ks@.take(i as int).index_of(k);
                        assert(ks@[j] == ks@[i as int]);
                    }
                }
            }
            let from = key_eq(e.source, n);
            let on = e.accepts(c);
            if from && on {
                proof {
                    assert(takes(self@.edges, k, n, c));
                    assert(!before.contains(k));
                    seen = seen.push(k);
                    assert forall|x: EdgeKey| #[trigger] seen.contains(x) <==> (ks@.take(i as int + 1).contains(x) && takes(self@.edges, x, n, c)) by {
                        lemma_seq_contains_after_push(before, k, x);
                        lemma_seq_contains_after_push(ks@.take(i as int), k, x);
                    }
                }
                if count < 2 {
                    count = count + 1;
                }
            } else {
                proof {
                    assert(!takes(self@.edges, k, n, c));
                    assert forall|x: EdgeKey| #[trigger] seen.contains(x) <==> (ks@.take(i as int + 1).contains(x) && takes(self@.edges, x, n, c)) by {
                        if x != k {
                            lemma_seq_contains_after_push(ks@.take(i as int), k, x);
                        }
                    }
                }
            }
            i += 1;
        }
        proof {
            assert(ks@.take(ks@.len() as int) =~= ks@);
            if seen.len() == 0 {
                assert forall|e: EdgeKey| !takes(self@.edges, e, n, c) by {
                    if takes(self@.edges, e, n, c) {
                        assert(seen.contains(e));
                    }
                }
                if ambiguous_transition(self@.edges, n, c) {
                    let (e1, e2) = choose|e1: EdgeKey, e2: EdgeKey| e1 != e2 && #[trigger] takes(self@.edges, e1, n, c) && #[trigger] takes(self@.edges, e2, n, c);
                    assert(seen.contains(e1));
                }
            } else {
                assert(seen.contains(seen[0]));
                assert(takes(self@.edges, seen[0], n, c));
            }
            if seen.len() >= 2 {
                assert(seen.contains(seen[1]));
                assert(seen[0] != seen[1]);
                assert(takes(self@.edges, seen[1], n, c));
            }
            if seen.len() == 1 && ambiguous_transition(self@.edges, n, c) {
                let (e1, e2) = choose|e1: EdgeKey, e2: EdgeKey| e1 != e2 && #[trigger] takes(self@.edges, e1, n, c) && #[trigger] takes(self@.edges, e2, n, c);
                assert(seen.contains(e1));
                assert(seen.contains(e2));
                let j1 = seen.index_of(e1);
                let j2 = seen.index_of(e2);
            }
        }
        count
    }

    /// The node reached from `key` on `symbol`: the target of the first edge,
    /// in listing order, that leaves `key` on `symbol`, if there is one.
    pub fn get_transition(&self, key: NodeKey, symbol: char) -> (r: Option<NodeKey>)
        ensures
            r matches Some(t) ==> exists|j: int|
                0 <= j < self.edge_order().len() && #[trigger] takes(self@.edges, self.edge_order()[j], key, symbol)
                    && self@.edges[self.edge_order()[j]].target == t
                    && forall|i: int| 0 <= i < j ==> !takes(self@.edges, #[trigger] self.edge_order()[i], key, symbol),
            r is None ==> no_transition(self@.edges, key, symbol),
    {
        let ks = edge_map_keys(&self.edges);
        let mut i: usize = 0;
        while i < ks.len()
            invariant
                i <= ks@.len(),
                ks@ == self.edge_order(),
                forall|e: EdgeKey| #[trigger] ks@.contains(e) <==> self@.edges.contains_key(e),
                forall|j: int| 0 <= j < i ==> !takes(self@.edges, #[trigger] ks@[j], key, symbol),
            decreases ks.len() - i,
        {
            let k = ks[i];
            assert(ks@.contains(k));
            let e = self.edge_at(k);
            if key_eq(e.source, key) && e.chars.contains(symbol) {
                assert(takes(self@.edges, k, key, symbol));
                assert(takes(self@.edges, self.edge_order()[i as int], key, symbol));
                return Some(e.target);
            }
            i += 1;
        }
        proof {
            if !no_transition(self@.edges, key, symbol) {
                let e = choose|e: EdgeKey| #[trigger] takes(self@.edges, e, key, symbol);
                assert(ks@.contains(e));
                let j = ks@.index_of(e);
                assert(!takes(self@.edges, ks@[j], key, symbol));
            }
        }
        None
    }

    /// The edges that leave (`outgoing`) or enter `node`, in listing order.
    fn edges_touching(&self, node: NodeKey, outgoing: bool) -> (v: Vec<Edge>)
        ensures
            v@.map_values(edge_value()) == self.edge_order().filter(touching(self@.edges, node, outgoing)).map_values(
                edge_at(self@.edges),
            ),
    {
        let ks = edge_map_keys(&self.edges);
        let ghost pick = touching(self@.edges, node, outgoing);
        let ghost at = edge_at(self@.edges);
        let mut out: Vec<Edge> = Vec::new();
        let mut i: usize = 0;
        while i < ks.len()
            invariant
                i <= ks@.len(),
                ks@ == self.edge_order(),
                pick == touching(self@.edges, node, outgoing),
                at == edge_at(self@.edges),
                forall|e: EdgeKey| #[trigger] ks@.contains(e) <==> self@.edges.contains_key(e),
                out@.map_values(edge_value()) == ks@.take(i as int).filter(pick).map_values(at),
            decreases ks.len() - i,
        {
            let k = ks[i];
            assert(ks@.contains(k));
            let e = self.edge_at(k);
            proof {
                assert(ks@.take(i as int + 1) =~= ks@.take(i as int).push(k));
                ks@.take(i as int).lemma_filter_push(k, pick);
            }
            let end = if outgoing {
                e.source
            } else {
                e.target
            };
            let ghost before = out@.map_values(edge_value());
            if key_eq(end, node) {
                out.push(e.clone());
                proof {
                    assert(pick(k));
                    assert(out@.map_values(edge_value()) =~= before.push(at(k)));
                    assert(ks@.take(i as int + 1).filter(pick).map_values(at) =~= ks@.take(i as int).filter(
                        pick,
                    ).map_values(at).push(at(k)));
                }
            } else {
                proof {
                    assert(!pick(k));
                    assert(out@.map_values(edge_value()) =~= before);
                }
            }
            i += 1;
        }
        proof {
            assert(ks@.take(ks@.len() as int) =~= ks@);
        }
        out
    }

    /// The edges that leave `node`, in listing order.
    pub fn outgoing_edges(&self, node: NodeKey) -> (v: Vec<Edge>)
        ensures
            v@.map_values(edge_value()) == self.edge_order().filter(touching(self@.edges, node, true)).map_values(
                edge_at(self@.edges),
            ),
    {
        self.edges_touching(node, true)
    }

    /// The edges that enter `node`, in listing order.
    pub fn incoming_edges(&self, node: NodeKey) -> (v: Vec<Edge>)
        ensures
            v@.map_values(edge_value()) == self.edge_order().filter(touching(self@.edges, node, false)).map_values(
                edge_at(self@.edges),
            ),
    {
        self.edges_touching(node, false)
    }

    /// Removes the node `key` and every edge that leaves or enters it.
    pub fn remove_node(&mut self, key: NodeKey)
        ensures
            old(self).well_listed() ==> final(self).well_listed(),
            final(self)@ == (SubmachineView {
                nodes: old(self)@.nodes.remove(key),
                edges: edges_avoiding(old(self)@.edges, key),
                ..old(self)@
            }),
    {
        broadcast use vstd::seq_lib::group_seq_properties;
        let ghost old_edges = self@.edges;
        let ks = edge_map_keys(&self.edges);
        let mut i: usize = 0;
        while i < ks.len()
            invariant
                i <= ks@.len(),
                ks@.no_duplicates(),
                forall|e: EdgeKey| #[trigger] ks@.contains(e) <==> old_edges.contains_key(e),
                self@.nodes == old(self)@.nodes,
                self@.name == old(self)@.name,
                self@.problems == old(self)@.problems,
                old(self).well_listed() ==> self.well_listed(),
                self@.edges == old_edges.filter_keys(|e: EdgeKey| !(ks@.take(i as int).contains(e) && (old_edges[e].source == key || old_edges[e].target == key))),
            decreases ks.len() - i,
        {
            let k = ks[i];
            proof {
                assert(ks@.take(i as int + 1) =~= ks@.take(i as int).push(k));
                assert(!ks@.take(i as int).contains(k)) by {
                    if ks@.take(i as int).contains(k) {
                        let j = ks@.take(i as int).index_of(k);
                        assert(ks@[j] == ks@[i as int]);
                    }
                }
                assert(ks@.contains(k));
            }
            let ghost prev = self@.edges;
            let e = self.edge_at(k);
            let incident = key_eq(e.source, key) || key_eq(e.target, key);
            proof {
                assert(prev.contains_key(k));
                assert(incident == (old_edges[k].source == key || old_edges[k].target == key));
            }
            if incident {
                self.remove_edge(k);
            }
            i += 1;
            proof {
                let next = old_edges.filter_keys(|e: EdgeKey| !(ks@.take(i as int).contains(e) && (old_edges[e].source == key || old_edges[e].target == key)));
                lemma_seq_contains_after_push(ks@.take(i as int - 1), k, k);
                assert(ks@.take(i as int).contains(k));
                assert forall|x: EdgeKey| #[trigger] self@.edges.contains_key(x) == next.contains_key(x) by {
                    if x != k {
                        lemma_seq_contains_after_push(ks@.take(i as int - 1), k, x);
                        assert(self@.edges.contains_key(x) == prev.contains_key(x));
                    } else if incident {
                        assert(!self@.edges.contains_key(k));
                    } else {
                        assert(self@.edges.contains_key(k));
                    }
                }
                assert(self@.edges =~= next);
            }
        }
        let _ = node_map_remove(&mut self.nodes, key);
        proof {
            assert(ks@.take(ks@.len() as int) =~= ks@);
            assert(self@.edges =~= edges_avoiding(old_edges, key));
            assert(self@.nodes =~= old(self)@.nodes.remove(key));
        }
    }

    /// Appends the missing and ambiguous transitions of `n`, symbol by
    /// symbol of `letters`.
    fn push_symbol_problems(&self, ks: &Vec<EdgeKey>, n: NodeKey, letters: &[char], out: &mut Vec<NodeProblem>)
        requires
            ks@.no_duplicates(),
            forall|e: EdgeKey| #[trigger] ks@.contains(e) <==> self@.edges.contains_key(e),
        ensures
            final(out)@ == old(out)@ + symbol_problems(self@.edges, n, letters@),
    {
        assert(old(out)@ + symbol_problems(self@.edges, n, letters@.take(0)) =~= old(out)@);
        for i in 0..letters.len()
            invariant
                ks@.no_duplicates(),
                forall|e: EdgeKey| #[trigger] ks@.contains(e) <==> self@.edges.contains_key(e),
                out@ == old(out)@ + symbol_problems(self@.edges, n, letters@.take(i as int)),
        {
            let c = letters[i];
            let count = self.transitions_on(ks, n, c);
            proof {
                letters@.lemma_filter_map_take_succ(problem_rule(self@.edges, n), i as int);
                assert(letters@[i as int] == c);
            }
            if count == 0 {
                out.push(NodeProblem::MissingTransition(c));
            } else if count >= 2 {
                out.push(NodeProblem::AmbiguousTransition(c));
            }
            proof {
                assert(out@ =~= old(out)@ + symbol_problems(self@.edges, n, letters@.take(i as int + 1)));
            }
        }
        assert(letters@.take(letters@.len() as int) =~= letters@);
    }

    /// Finds the problems of every node and keeps those of the nodes that
    /// have some, dropping what an earlier validation found.
    pub fn validate(&mut self, alphabet: ValidatedAlphabet)
        ensures
            old(self).well_listed() ==> final(self).well_listed(),
            final(self)@ == (SubmachineView {
                problems: all_problems(old(self)@.nodes, old(self)@.edges, alphabet@),
                ..old(self)@
            }),
            final(self).node_order() == old(self).node_order(),
            final(self).edge_order() == old(self).edge_order(),
            final(self).dense() == old(self).dense(),
    {
        broadcast use vstd::seq_lib::group_seq_properties;
        problem_map_clear(&mut self.problematic_nodes);
        let keys = node_map_keys(&self.nodes);
        let eks = edge_map_keys(&self.edges);
        let letters = alphabet.iter();
        let ghost nodes = self@.nodes;
        let ghost edges = self@.edges;
        assert(self@.problems =~= Map::new(
            |k: NodeKey| keys@.take(0).contains(k) && node_problems(nodes[k], edges, k, letters@).len() > 0,
            |k: NodeKey| node_problems(nodes[k], edges, k, letters@),
        ));
        for i in 0..keys.len()
            invariant
                nodes == old(self)@.nodes,
                edges == old(self)@.edges,
                self.node_order() == old(self).node_order(),
                self.edge_order() == old(self).edge_order(),
                self.dense() == old(self).dense(),
                self@.nodes == nodes,
                self@.edges == edges,
                self@.name == old(self)@.name,
                letters@ == alphabet@,
                keys@.no_duplicates(),
                forall|k: NodeKey| #[trigger] keys@.contains(k) <==> node_slots(self.nodes).contains_key(k),
                forall|a: int, b: int|
                    0 <= a < keys@.len() && 0 <= b < keys@.len() && a != b ==> key_slot(keys@[a]) != key_slot(keys@[b]),
                forall|a: int| 0 <= a < keys@.len() ==> key_slot(#[trigger] keys@[a]) != 0xffff_ffff,
                eks@.no_duplicates(),
                forall|e: EdgeKey| #[trigger] eks@.contains(e) <==> self@.edges.contains_key(e),
                self@.problems == Map::new(
                    |k: NodeKey| keys@.take(i as int).contains(k) && node_problems(nodes[k], edges, k, letters@).len() > 0,
                    |k: NodeKey| node_problems(nodes[k], edges, k, letters@),
                ),
        {
            let key = keys[i];
            assert(keys@.contains(key));
            let node = node_map_get(&self.nodes, key).unwrap();
            let kind: u8 = match &node.action {
                Action::Start => 0,
                Action::Stop => 1,
                _ => 2,
            };
            let has_incoming = self.touches(&eks, key, false);
            let has_outgoing = self.touches(&eks, key, true);
            let mut problems: Vec<NodeProblem> = Vec::new();
            if kind == 0 {
                if !has_outgoing {
                    problems.push(NodeProblem::NotAvailable);
                }
                if has_incoming {
                    problems.push(NodeProblem::StartNodeIncoming);
                }
                self.push_symbol_problems(&eks, key, letters, &mut problems);
            } else if kind == 1 {
                if !has_incoming {
                    problems.push(NodeProblem::NotAvailable);
                }
                if has_outgoing {
                    problems.push(NodeProblem::EndNodeOutgoing);
                }
            } else {
                if !has_incoming && !has_outgoing {
                    problems.push(NodeProblem::NotAvailable);
                }
                self.push_symbol_problems(&eks, key, letters, &mut problems);
            }
            proof {
                assert(problems@ =~= node_problems(nodes[key], edges, key, letters@));
                lemma_seq_contains_after_push(keys@.take(i as int), key, key);
                assert(keys@.take(i as int + 1) =~= keys@.take(i as int).push(key));
            }
            let ghost before = self@.problems;
            if problems.len() > 0 {
                proof {
                    assert forall|j: NodeKey| #[trigger] before.contains_key(j) implies key_slot(j) != key_slot(key) by {
                        let a = keys@.take(i as int).index_of(j);
                        assert(keys@[a] == j);
                    }
                }
                problem_map_insert(&mut self.problematic_nodes, key, problems);
            }
            proof {
                assert forall|k: NodeKey| #[trigger] self@.problems.contains_key(k) == (keys@.take(i as int + 1).contains(k) && node_problems(nodes[k], edges, k, letters@).len() > 0) by {
                    lemma_seq_contains_after_push(keys@.take(i as int), key, k);
                }
                assert(self@.problems =~= Map::new(
                    |k: NodeKey| keys@.take(i as int + 1).contains(k) && node_problems(nodes[k], edges, k, letters@).len() > 0,
                    |k: NodeKey| node_problems(nodes[k], edges, k, letters@),
                ));
            }
        }
        proof {
            assert(keys@.take(keys@.len() as int) =~= keys@);
            assert(self@.problems =~= all_problems(nodes, edges, alphabet@));
        }
    }

    /// The name of the submachine.
    pub fn name(&self) -> (s: String)
        ensures
            s@ == self@.name,
    {
        self.name.clone()
    }

    /// Renames the submachine.
    pub fn set_name(&mut self, new_name: String)
        ensures
            old(self).well_listed() ==> final(self).well_listed(),
            final(self)@ == (SubmachineView { name: new_name@, ..old(self)@ }),
    {
        self.name = new_name;
    }

    /// Removes the edge stored under `key`, if any.
    pub fn remove_edge(&mut self, key: EdgeKey)
        ensures
            old(self).well_listed() ==> final(self).well_listed(),
            final(self)@ == (SubmachineView { edges: old(self)@.edges.remove(key), ..old(self)@ }),
    {
        let _ = edge_map_remove(&mut self.edges, key);
        assert(self@.edges =~= old(self)@.edges.remove(key));
    }
}

/// Removing a node just added gives back the submachine it was added to,
/// when every edge joins existing nodes (a fresh node then has no edge).
pub proof fn lemma_remove_undoes_add(v: SubmachineView, k: NodeKey, a: Action)
    requires
        !v.nodes.contains_key(k),
        forall|e: EdgeKey| #[trigger] v.edges.contains_key(e) ==> v.nodes.contains_key(v.edges[e].source)
            && v.nodes.contains_key(v.edges[e].target),
    ensures
        (SubmachineView {
            nodes: v.nodes.insert(k, a).remove(k),
            edges: edges_avoiding(v.edges, k),
            ..v
        }) == v,
{
    assert(v.nodes.insert(k, a).remove(k) =~= v.nodes);
    assert(edges_avoiding(v.edges, k) =~= v.edges);
}

/// Whether `s` holds `c`.
pub fn slice_contains(s: &[char], c: char) -> (b: bool)
    ensures
        b == s@.contains(c),
{
    let mut i: usize = 0;
    while i < s.len()
        invariant
            i <= s@.len(),
            forall|j: int| 0 <= j < i ==> s@[j] != c,
        decreases s.len() - i,
    {
        if s[i] == c {
            return true;
        }
        i += 1;
    }
    false
}

/// A symbol kept by the rule `f` at some position of `s` is among what
/// `s.filter_map(f)` gives.
pub proof fn lemma_filter_map_keeps<A, B>(s: Seq<A>, f: spec_fn(A) -> Option<B>, i: int)
    requires
        0 <= i < s.len(),
        f(s[i]) is Some,
    ensures
        s.filter_map(f).contains(f(s[i])->0),
    decreases s.len(),
{
    let x = f(s[i])->0;
    let rest = s.drop_last().filter_map(f);
    if i == s.len() - 1 {
        assert(s.filter_map(f) == rest + seq![x]);
        assert((rest + seq![x])[rest.len() as int] == x);
    } else {
        assert(s.drop_last()[i] == s[i]);
        lemma_filter_map_keeps(s.drop_last(), f, i);
        let j = choose|j: int| 0 <= j < rest.len() && rest[j] == x;
        match f(s.last()) {
            Some(y) => {
                assert(s.filter_map(f) == rest + seq![y]);
                assert((rest + seq![y])[j] == x);
            },
            None => {
                assert(s.filter_map(f) == rest);
            },
        }
    }
}

/// Validation checks the transitions of every node that is neither a start
/// nor a stop node, a submachine call among them: for each symbol of the
/// alphabet that no edge leaving the node takes, the node's problems hold a
/// missing transition on that symbol, and for each symbol that two edges
/// leaving it take, an ambiguous transition on it.
pub proof fn lemma_validation_checks_transitions(
    nodes: Map<NodeKey, Action>,
    edges: Map<EdgeKey, EdgeView>,
    letters: Seq<char>,
    k: NodeKey,
    c: char,
)
    requires
        nodes.contains_key(k),
        !(nodes[k] is Start),
        !(nodes[k] is Stop),
        letters.contains(c),
    ensures
        (forall|e: EdgeKey| edges.contains_key(e) && edges[e].source == k ==> !(#[trigger] edges[e].chars.contains(c)))
            ==> all_problems(nodes, edges, letters).contains_key(k)
            && all_problems(nodes, edges, letters)[k].contains(NodeProblem::MissingTransition(c)),
        (exists|e1: EdgeKey, e2: EdgeKey|
            e1 != e2 && edges.contains_key(e1) && edges.contains_key(e2) && edges[e1].source == k
                && edges[e2].source == k && #[trigger] edges[e1].chars.contains(c) && #[trigger] edges[e2].chars.contains(c))
            ==> all_problems(nodes, edges, letters).contains_key(k)
            && all_problems(nodes, edges, letters)[k].contains(NodeProblem::AmbiguousTransition(c)),
{
    let i = choose|i: int| 0 <= i < letters.len() && letters[i] == c;
    let f = problem_rule(edges, k);
    let head: Seq<NodeProblem> = if !has_incoming(edges, k) && !has_outgoing(edges, k) {
        seq![NodeProblem::NotAvailable]
    } else {
        Seq::empty()
    };
    let probs = node_problems(nodes[k], edges, k, letters);
    assert(probs == head + symbol_problems(edges, k, letters));
    if f(letters[i]) is Some {
        lemma_filter_map_keeps(letters, f, i);
        let x = f(letters[i])->0;
        let j = choose|j: int| 0 <= j < symbol_problems(edges, k, letters).len()
            && symbol_problems(edges, k, letters)[j] == x;
        assert(probs[head.len() + j] == x);
        assert(probs.contains(x));
    }
    if forall|e: EdgeKey| edges.contains_key(e) && edges[e].source == k ==> !(#[trigger] edges[e].chars.contains(c)) {
        assert(no_transition(edges, k, c));
    }
    if exists|e1: EdgeKey, e2: EdgeKey|
        e1 != e2 && edges.contains_key(e1) && edges.contains_key(e2) && edges[e1].source == k
            && edges[e2].source == k && #[trigger] edges[e1].chars.contains(c) && #[trigger] edges[e2].chars.contains(c) {
        let (e1, e2) = choose|e1: EdgeKey, e2: EdgeKey|
            e1 != e2 && edges.contains_key(e1) && edges.contains_key(e2) && edges[e1].source == k
                && edges[e2].source == k && #[trigger] edges[e1].chars.contains(c) && #[trigger] edges[e2].chars.contains(c);
        assert(takes(edges, e1, k, c));
        assert(takes(edges, e2, k, c));
        assert(!no_transition(edges, k, c));
        assert(ambiguous_transition(edges, k, c));
    }
}

} // verus!
