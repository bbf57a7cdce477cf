//! A project as it is saved: submachines, nodes and edges named by their
//! positions in lists instead of by keys.

use vstd::prelude::*;

use crate::alphabet::{alphabet_fault, ValidatedAlphabet};
use crate::project::Project;
use crate::tm;
use crate::slots::{index_map_get, index_map_insert, index_map_new, index_slots, key_slot, IndexSlots};
use crate::tm::{
    all_problems, symbols_fault, EdgeKey, EdgeView, NodeKey, SubmachineKey, TransitionSymbols,
};

verus! {

/// What a saved node does; a submachine call names its target by its
/// position among the saved submachines.
#[derive(Debug, Clone, Copy, PartialEq, Eq, Structural)]
pub enum Action {
    Start,
    Stop,
    Left(u32),
    Right(u32),
    Write(char),
    Submachine { target_id: usize, power: u32 },
}

/// A saved node.
#[derive(Debug, Clone, Copy, PartialEq, Eq, Structural)]
pub struct Node {
    pub action: Action,
}

/// A saved edge: its symbols and the positions of its two ends among the
/// nodes of its submachine.
#[derive(Debug, Clone)]
pub struct Edge {
    pub chars: Vec<char>,
    pub source: usize,
    pub target: usize,
}

/// A saved edge as a value.
pub struct EdgeRecordView {
    pub chars: Seq<char>,
    pub source: usize,
    pub target: usize,
}

impl View for Edge {
    type V = EdgeRecordView;

    open spec fn view(&self) -> EdgeRecordView {
        EdgeRecordView { chars: self.chars@, source: self.source, target: self.target }
    }
}

/// A saved submachine: its name, its nodes and its edges.
#[derive(Debug, Clone)]
pub struct Submachine {
    pub name: String,
    pub nodes: Vec<Node>,
    pub edges: Vec<Edge>,
}

/// A saved submachine as a value.
pub struct MachineRecordView {
    pub name: Seq<char>,
    pub nodes: Seq<Action>,
    pub edges: Seq<EdgeRecordView>,
}

impl View for Submachine {
    type V = MachineRecordView;

    open spec fn view(&self) -> MachineRecordView {
        MachineRecordView {
            name: self.name@,
            nodes: self.nodes@.map_values(|n: Node| n.action),
            edges: self.edges@.map_values(|e: Edge| e@),
        }
    }
}

/// A saved project: its name, its submachines (the entry machine first)
/// and its alphabet.
#[derive(Debug, Clone)]
pub struct ProjectBundle {
    pub name: String,
    pub submachines: Vec<Submachine>,
    pub alphabet: Vec<char>,
}

/// A saved project as a value.
pub struct BundleView {
    pub name: Seq<char>,
    pub submachines: Seq<MachineRecordView>,
    pub alphabet: Seq<char>,
}

impl View for ProjectBundle {
    type V = BundleView;

    open spec fn view(&self) -> BundleView {
        BundleView {
            name: self.name@,
            submachines: self.submachines@.map_values(|m: Submachine| m@),
            alphabet: self.alphabet@,
        }
    }
}

// - Which saved projects can be loaded

/// A submachine call names one of the `machines` saved submachines.
pub open spec fn target_ok(a: Action, machines: nat) -> bool {
    match a {
        Action::Submachine { target_id, .. } => target_id < machines,
        _ => true,
    }
}

/// A saved edge joins two of the `nodes` nodes of its submachine on a valid
/// set of symbols of `alphabet`.
pub open spec fn edge_record_ok(e: EdgeRecordView, nodes: nat, alphabet: Seq<char>) -> bool {
    &&& e.source < nodes
    &&& e.target < nodes
    &&& symbols_fault(e.chars, alphabet) is None
}

/// A saved submachine refers only to what exists, and fits in slot maps.
pub open spec fn machine_record_ok(r: MachineRecordView, machines: nat, alphabet: Seq<char>) -> bool {
    &&& r.nodes.len() < 0xffff_fffe
    &&& r.edges.len() < 0xffff_fffe
    &&& forall|j: int| 0 <= j < r.nodes.len() ==> target_ok(#[trigger] r.nodes[j], machines)
    &&& forall|j: int| 0 <= j < r.edges.len() ==> edge_record_ok(#[trigger] r.edges[j], r.nodes.len(), alphabet)
}

/// A saved project can be loaded: its alphabet is valid, it has an entry
/// machine, and every submachine refers only to what exists.
pub open spec fn bundle_ok(b: BundleView) -> bool {
    &&& alphabet_fault(b.alphabet) is None
    &&& 0 < b.submachines.len() < 0xffff_fffe
    &&& forall|i: int| 0 <= i < b.submachines.len() ==> machine_record_ok(#[trigger] b.submachines[i], b.submachines.len(), b.alphabet)
}

// - What a loaded project holds

/// `a` is the action that the saved action `r` stands for, where `order`
/// lists the keys of the loaded submachines in saved order.
pub open spec fn action_loaded(a: tm::Action, r: Action, b: BundleView, order: Seq<SubmachineKey>) -> bool {
    match r {
        Action::Start => a == tm::Action::Start,
        Action::Stop => a == tm::Action::Stop,
        Action::Left(n) => a == tm::Action::Left(n),
        Action::Right(n) => a == tm::Action::Right(n),
        Action::Write(c) => a == tm::Action::Write(c),
        Action::Submachine { target_id, power } => a matches tm::Action::Submachine { name, key, power: p }
            && name@ == b.submachines[target_id as int].name && key == order[target_id as int] && p == power,
    }
}

/// `m` holds the nodes and edges of the saved submachine `r`, listed in
/// saved order, and nothing else.
pub open spec fn machine_built(m: tm::Submachine, r: MachineRecordView, b: BundleView, order: Seq<SubmachineKey>) -> bool {
    &&& m@.name == r.name
    &&& m.dense()
    &&& m.node_order().len() == r.nodes.len()
    &&& m.node_order().no_duplicates()
    &&& forall|k: tm::NodeKey| #[trigger] m@.nodes.contains_key(k) <==> m.node_order().contains(k)
    &&& forall|j: int| 0 <= j < r.nodes.len() ==> action_loaded(m@.nodes[#[trigger] m.node_order()[j]], r.nodes[j], b, order)
    &&& m.edge_order().len() == r.edges.len()
    &&& m.edge_order().no_duplicates()
    &&& forall|k: tm::EdgeKey| #[trigger] m@.edges.contains_key(k) <==> m.edge_order().contains(k)
    &&& forall|j: int| 0 <= j < r.edges.len() ==> m@.edges[#[trigger] m.edge_order()[j]] == (EdgeView {
        chars: r.edges[j].chars,
        source: m.node_order()[r.edges[j].source as int],
        target: m.node_order()[r.edges[j].target as int],
    })
}

/// `m` is the saved submachine `r`, loaded and validated.
pub open spec fn machine_loaded(m: tm::Submachine, r: MachineRecordView, b: BundleView, order: Seq<SubmachineKey>) -> bool {
    &&& machine_built(m, r, b, order)
    &&& m@.problems == all_problems(m@.nodes, m@.edges, b.alphabet)
}

/// `p` is the saved project `b`, loaded: its name and alphabet, one
/// submachine per saved one, listed in saved order, the first of them the
/// entry machine and the one being edited.
pub open spec fn loads(b: BundleView, p: Project) -> bool {
    let order = p.submachine_order();
    &&& p@.name == b.name
    &&& p@.alphabet == b.alphabet
    &&& p.dense()
    &&& order.len() == b.submachines.len()
    &&& order.no_duplicates()
    &&& forall|k: SubmachineKey| #[trigger] p@.documents.contains_key(k) <==> order.contains(k)
    &&& p@.entry == order[0]
    &&& p@.current == order[0]
    &&& forall|i: int| 0 <= i < order.len() ==> machine_loaded(p@.documents[#[trigger] order[i]].machine, b.submachines[i], b, order)
}

/// `m` is an empty, never changed submachine called `name`.
pub open spec fn fresh_machine(m: tm::Submachine, name: Seq<char>) -> bool {
    &&& m@.name == name
    &&& m@.nodes.is_empty()
    &&& m@.edges.is_empty()
    &&& m@.problems.is_empty()
    &&& m@.nodes.dom().finite()
    &&& m@.edges.dom().finite()
    &&& m.node_order().len() == 0
    &&& m.edge_order().len() == 0
    &&& m.dense()
}

/// The action that the saved action `r` stands for.
fn load_action(r: Action, b: &ProjectBundle, keys: &Vec<SubmachineKey>) -> (a: tm::Action)
    requires
        target_ok(r, keys@.len()),
        keys@.len() == b@.submachines.len(),
    ensures
        action_loaded(a, r, b@, keys@),
{
    match r {
        Action::Start => tm::Action::Start,
        Action::Stop => tm::Action::Stop,
        Action::Left(n) => tm::Action::Left(n),
        Action::Right(n) => tm::Action::Right(n),
        Action::Write(c) => tm::Action::Write(c),
        Action::Submachine { target_id, power } => tm::Action::Submachine {
            name: b.submachines[target_id].name.clone(),
            key: keys[target_id],
            power,
        },
    }
}

/// Fills the empty submachine `m` with the nodes, then the edges, of the
/// saved submachine `rec`.
pub(crate) fn load_machine(
    m: &mut tm::Submachine,
    rec: &Submachine,
    b: &ProjectBundle,
    keys: &Vec<SubmachineKey>,
    alphabet: &ValidatedAlphabet,
)
    requires
        fresh_machine(*old(m), rec@.name),
        machine_record_ok(rec@, keys@.len(), alphabet@),
        keys@.len() == b@.submachines.len(),
        alphabet@ == b@.alphabet,
    ensures
        machine_built(*final(m), rec@, b@, keys@),
        final(m)@.problems == old(m)@.problems,
{
    broadcast use vstd::seq_lib::group_seq_properties;

    let mut node_keys: Vec<NodeKey> = Vec::new();
    let n = rec.nodes.len();
    for j in 0..n
        invariant
            n == rec@.nodes.len(),
            machine_record_ok(rec@, keys@.len(), alphabet@),
            keys@.len() == b@.submachines.len(),
            node_keys@ == m.node_order(),
            node_keys@.len() == j,
            node_keys@.no_duplicates(),
            forall|k: NodeKey| #[trigger] m@.nodes.contains_key(k) <==> node_keys@.contains(k),
            m@.nodes.dom().finite(),
            m@.nodes.len() == j,
            m.dense(),
            m@.name == rec@.name,
            m@.edges.is_empty(),
            m@.edges.dom().finite(),
            m.edge_order().len() == 0,
            m@.problems == old(m)@.problems,
            forall|a: int| 0 <= a < j ==> action_loaded(m@.nodes[#[trigger] node_keys@[a]], rec@.nodes[a], b@, keys@),
    {
        assert(target_ok(rec@.nodes[j as int], keys@.len()));
        let a = load_action(rec.nodes[j].action, b, keys);
        let ghost before = node_keys@;
        let k = m.add_node(a);
        node_keys.push(k);
        proof {
            assert(!before.contains(k));
            assert forall|x: NodeKey| #[trigger] m@.nodes.contains_key(x) <==> node_keys@.contains(x) by {
                vstd::seq_lib::lemma_seq_contains_after_push(before, k, x);
            }
            assert forall|c: int| 0 <= c < j + 1 implies action_loaded(m@.nodes[#[trigger] node_keys@[c]], rec@.nodes[c], b@, keys@) by {
                if c < j {
                    assert(node_keys@[c] == before[c]);
                    assert(node_keys@[c] != k);
                }
            }
        }
    }
    let e_count = rec.edges.len();
    for j in 0..e_count
        invariant
            e_count == rec@.edges.len(),
            n == rec@.nodes.len(),
            machine_record_ok(rec@, keys@.len(), alphabet@),
            node_keys@ == m.node_order(),
            node_keys@.len() == n,
            node_keys@.no_duplicates(),
            forall|k: NodeKey| #[trigger] m@.nodes.contains_key(k) <==> node_keys@.contains(k),
            m.dense(),
            m@.name == rec@.name,
            m@.edges.dom().finite(),
            m@.edges.len() == j,
            m.edge_order().len() == j,
            m.edge_order().no_duplicates(),
            forall|k: tm::EdgeKey| #[trigger] m@.edges.contains_key(k) <==> m.edge_order().contains(k),
            m@.problems == old(m)@.problems,
            forall|a: int| 0 <= a < n ==> action_loaded(m@.nodes[#[trigger] node_keys@[a]], rec@.nodes[a], b@, keys@),
            forall|a: int| 0 <= a < j ==> m@.edges[#[trigger] m.edge_order()[a]] == (EdgeView {
                chars: rec@.edges[a].chars,
                source: node_keys@[rec@.edges[a].source as int],
                target: node_keys@[rec@.edges[a].target as int],
            }),
    {
        assert(edge_record_ok(rec@.edges[j as int], rec@.nodes.len(), alphabet@));
        let e = &rec.edges[j];
        let chars = TransitionSymbols::new(e.chars.clone(), alphabet).unwrap();
        let ghost before = m.edge_order();
        let ghost old_edges = m@.edges;
        let k = m.add_edge(chars, node_keys[e.source], node_keys[e.target]);
        proof {
            assert(!before.contains(k));
            assert forall|x: tm::EdgeKey| #[trigger] m@.edges.contains_key(x) <==> m.edge_order().contains(x) by {
                vstd::seq_lib::lemma_seq_contains_after_push(before, k, x);
            }
            assert forall|c: int| 0 <= c < j + 1 implies m@.edges[#[trigger] m.edge_order()[c]] == (EdgeView {
                chars: rec@.edges[c].chars,
                source: node_keys@[rec@.edges[c].source as int],
                target: node_keys@[rec@.edges[c].target as int],
            }) by {
                if c < j {
                    assert(m.edge_order()[c] == before[c]);
                    assert(before[c] != k);
                }
            }
        }
    }
}

impl ProjectBundle {
    /// Whether the saved project can be loaded (`bundle_ok`).
    pub fn is_loadable(&self) -> (ok: bool)
        ensures
            ok == bundle_ok(self@),
    {
        let alphabet = match ValidatedAlphabet::new(self.alphabet.clone()) {
            Ok(a) => a,
            Err(_) => {
                return false;
            },
        };
        let n = self.submachines.len();
        if n == 0 || n >= 0xffff_fffe {
            return false;
        }
        let mut i: usize = 0;
        while i < n
            invariant
                n == self@.submachines.len(),
                0 < n < 0xffff_fffe,
                alphabet@ == self@.alphabet,
                alphabet_fault(self@.alphabet) is None,
                i <= n,
                forall|a: int| 0 <= a < i ==> machine_record_ok(#[trigger] self@.submachines[a], n as nat, self@.alphabet),
            decreases n - i,
        {
            if !record_ok(&self.submachines[i], n, &alphabet) {
                assert(!machine_record_ok(self@.submachines[i as int], n as nat, self@.alphabet));
                return false;
            }
            i += 1;
        }
        true
    }
}

/// Whether the saved submachine `r` is `machine_record_ok` among
/// `machines` submachines.
fn record_ok(r: &Submachine, machines: usize, alphabet: &ValidatedAlphabet) -> (ok: bool)
    ensures
        ok == machine_record_ok(r@, machines as nat, alphabet@),
{
    let nodes = r.nodes.len();
    let edges = r.edges.len();
    if nodes >= 0xffff_fffe || edges >= 0xffff_fffe {
        return false;
    }
    let mut j: usize = 0;
    while j < nodes
        invariant
            nodes == r@.nodes.len(),
            j <= nodes,
            forall|a: int| 0 <= a < j ==> target_ok(#[trigger] r@.nodes[a], machines as nat),
        decreases nodes - j,
    {
        match r.nodes[j].action {
            Action::Submachine { target_id, .. } => {
                if target_id >= machines {
                    assert(!target_ok(r@.nodes[j as int], machines as nat));
                    return false;
                }
            },
            _ => {},
        }
        j += 1;
    }
    let mut j: usize = 0;
    while j < edges
        invariant
            edges == r@.edges.len(),
            nodes == r@.nodes.len(),
            j <= edges,
            forall|a: int| 0 <= a < j ==> edge_record_ok(#[trigger] r@.edges[a], nodes as nat, alphabet@),
        decreases edges - j,
    {
        let e = &r.edges[j];
        if e.source >= nodes || e.target >= nodes {
            assert(!edge_record_ok(r@.edges[j as int], nodes as nat, alphabet@));
            return false;
        }
        match TransitionSymbols::new(e.chars.clone(), alphabet) {
            Ok(_) => {},
            Err(_) => {
                assert(!edge_record_ok(r@.edges[j as int], nodes as nat, alphabet@));
                return false;
            },
        }
        j += 1;
    }
    true
}

// - Saving a project

/// How the action `a` is saved, where `order` lists the keys of the
/// project's submachines in the order they are saved.
pub open spec fn record_of_action(a: tm::Action, order: Seq<SubmachineKey>) -> Action {
    match a {
        tm::Action::Start => Action::Start,
        tm::Action::Stop => Action::Stop,
        tm::Action::Left(n) => Action::Left(n),
        tm::Action::Right(n) => Action::Right(n),
        tm::Action::Write(c) => Action::Write(c),
        tm::Action::Submachine { key, power, .. } => Action::Submachine {
            target_id: order.index_of(key) as usize,
            power,
        },
    }
}

/// How the edge `e` of `m` is saved: its ends by their positions in the
/// listing of the nodes.
pub open spec fn record_of_edge(m: tm::Submachine, e: EdgeView) -> EdgeRecordView {
    EdgeRecordView {
        chars: e.chars,
        source: m.node_order().index_of(e.source) as usize,
        target: m.node_order().index_of(e.target) as usize,
    }
}

/// How the submachine `m` is saved: its nodes and edges in listing order.
pub open spec fn record_of_machine(m: tm::Submachine, order: Seq<SubmachineKey>) -> MachineRecordView {
    MachineRecordView {
        name: m@.name,
        nodes: m.node_order().map_values(|k: NodeKey| record_of_action(m@.nodes[k], order)),
        edges: m.edge_order().map_values(|k: EdgeKey| record_of_edge(m, m@.edges[k])),
    }
}

/// How the project `p` is saved: its submachines in listing order.
pub open spec fn bundle_of(p: Project) -> BundleView {
    BundleView {
        name: p@.name,
        submachines: p.submachine_order().map_values(
            |k: SubmachineKey| record_of_machine(p@.documents[k].machine, p.submachine_order()),
        ),
        alphabet: p@.alphabet,
    }
}

/// Every submachine call of `m` names a submachine of `documents`, and
/// every edge of `m` joins two of its nodes.
pub open spec fn machine_resolves(m: tm::Submachine, documents: Map<SubmachineKey, crate::project::SubmachineDocument>) -> bool {
    &&& forall|k: NodeKey| #[trigger] m@.nodes.contains_key(k) ==> (m@.nodes[k] matches tm::Action::Submachine { key, .. } ==> documents.contains_key(key))
    &&& forall|e: EdgeKey| #[trigger] m@.edges.contains_key(e) ==> m@.nodes.contains_key(m@.edges[e].source) && m@.nodes.contains_key(m@.edges[e].target)
}

/// Everything the submachines of `p` name exists, so `p` can be saved.
pub open spec fn references_resolve(p: Project) -> bool {
    forall|k: SubmachineKey| #[trigger] p@.documents.contains_key(k) ==> machine_resolves(p@.documents[k].machine, p@.documents)
}

/// In a listing without repetitions the position of the item at `i` is `i`.
pub proof fn lemma_index_of_unique<A>(s: Seq<A>, i: int)
    requires
        s.no_duplicates(),
        0 <= i < s.len(),
    ensures
        s.index_of(s[i]) == i,
{
    let j = s.index_of(s[i]);
    assert(0 <= j < s.len() && s[j] == s[i]);
}

/// `ids` gives every key of `order` its position there, and holds nothing else.
spec fn positions(ids: IndexSlots, order: Seq<tm::NodeKey>) -> bool {
    &&& order.no_duplicates()
    &&& forall|k: tm::NodeKey| #[trigger] index_slots(ids).contains_key(k) <==> order.contains(k)
    &&& forall|i: int| 0 <= i < order.len() ==> index_slots(ids)[#[trigger] order[i]] == i
}

/// Builds the map from the keys of `order` to their positions.
fn index_keys(order: &Vec<tm::NodeKey>) -> (ids: IndexSlots)
    requires
        order@.no_duplicates(),
        forall|i: int, j: int| 0 <= i < order@.len() && 0 <= j < order@.len() && i != j ==> key_slot(order@[i]) != key_slot(order@[j]),
        forall|i: int| 0 <= i < order@.len() ==> key_slot(#[trigger] order@[i]) != 0xffff_ffff,
    ensures
        positions(ids, order@),
{
    broadcast use vstd::seq_lib::group_seq_properties;

    let mut ids = index_map_new();
    for idx in 0..order.len()
        invariant
            order@.no_duplicates(),
            forall|i: int, j: int| 0 <= i < order@.len() && 0 <= j < order@.len() && i != j ==> key_slot(order@[i]) != key_slot(order@[j]),
            forall|i: int| 0 <= i < order@.len() ==> key_slot(#[trigger] order@[i]) != 0xffff_ffff,
            forall|k: tm::NodeKey| #[trigger] index_slots(ids).contains_key(k) <==> order@.take(idx as int).contains(k),
            forall|i: int| 0 <= i < idx ==> index_slots(ids)[#[trigger] order@[i]] == i,
    {
        let key = order[idx];
        proof {
            assert forall|j: tm::NodeKey| #[trigger] index_slots(ids).contains_key(j) implies key_slot(j) != key_slot(key) by {
                let a = order@.take(idx as int).index_of(j);
                assert(order@[a] == j);
            }
        }
        let ghost before = index_slots(ids);
        index_map_insert(&mut ids, key, idx);
        proof {
            assert(order@.take(idx as int + 1) =~= order@.take(idx as int).push(key));
            assert forall|k: tm::NodeKey| #[trigger] index_slots(ids).contains_key(k) <==> order@.take(idx as int + 1).contains(k) by {
                vstd::seq_lib::lemma_seq_contains_after_push(order@.take(idx as int), key, k);
            }
            assert forall|i: int| 0 <= i < idx + 1 implies index_slots(ids)[#[trigger] order@[i]] == i by {
                if i < idx {
                    assert(order@[i] != key);
                }
            }
        }
    }
    assert(order@.take(order@.len() as int) =~= order@);
    ids
}

/// The symbols of `t`, in their order.
fn symbols_vec(t: &TransitionSymbols) -> (v: Vec<char>)
    ensures
        v@ == t@,
{
    let mut it = t.iter();
    let ghost all = it@;
    let mut v: Vec<char> = Vec::new();
    assert(all.skip(0) =~= all);
    loop
        invariant
            all == t@,
            v@.len() <= all.len(),
            it@ == all.skip(v@.len() as int),
            v@ == all.take(v@.len() as int),
        decreases all.len() - v@.len(),
    {
        match it.next() {
            Some(c) => {
                proof {
                    assert(all.skip(v@.len() as int).drop_first() =~= all.skip(v@.len() as int + 1));
                    assert(all.take(v@.len() as int + 1) =~= all.take(v@.len() as int).push(c));
                }
                v.push(c);
            },
            None => {
                assert(all.take(v@.len() as int) =~= all);
                return v;
            },
        }
    }
}

/// How the action `a` is saved, given the positions of the submachines.
fn record_action(a: &tm::Action, ids: &IndexSlots, Ghost(order): Ghost<Seq<SubmachineKey>>) -> (r: Action)
    requires
        positions(*ids, order),
        *a matches tm::Action::Submachine { key, .. } ==> order.contains(key),
    ensures
        r == record_of_action(*a, order),
{
    match a {
        tm::Action::Start => Action::Start,
        tm::Action::Stop => Action::Stop,
        tm::Action::Left(n) => Action::Left(*n),
        tm::Action::Right(n) => Action::Right(*n),
        tm::Action::Write(c) => Action::Write(*c),
        tm::Action::Submachine { key, power, .. } => {
            let id = index_map_get(ids, *key).unwrap();
            proof {
                let i = order.index_of(*key);
                lemma_index_of_unique(order, i);
            }
            Action::Submachine { target_id: id, power: *power }
        },
    }
}

/// How the submachine `m` is saved, given the positions of the submachines.
fn record_machine(m: &tm::Submachine, ids: &IndexSlots, Ghost(order): Ghost<Seq<SubmachineKey>>) -> (r: Submachine)
    requires
        positions(*ids, order),
        forall|k: NodeKey| #[trigger] m@.nodes.contains_key(k) ==> (m@.nodes[k] matches tm::Action::Submachine { key, .. } ==> order.contains(key)),
        forall|e: EdgeKey| #[trigger] m@.edges.contains_key(e) ==> m@.nodes.contains_key(m@.edges[e].source) && m@.nodes.contains_key(m@.edges[e].target),
    ensures
        r@ == record_of_machine(*m, order),
{
    let mut submachine = Submachine { name: m.name(), nodes: Vec::new(), edges: Vec::new() };
    let nodes = m.nodes_iter();
    let ghost node_order = m.node_order();
    let mut node_keys: Vec<NodeKey> = Vec::new();
    for idx in 0..nodes.len()
        invariant
            positions(*ids, order),
            forall|k: NodeKey| #[trigger] m@.nodes.contains_key(k) ==> (m@.nodes[k] matches tm::Action::Submachine { key, .. } ==> order.contains(key)),
            nodes@.map_values(|p: (NodeKey, tm::Node)| p.0) == node_order,
            forall|i: int| 0 <= i < nodes@.len() ==> m@.nodes.contains_key(#[trigger] nodes@[i].0) && nodes@[i].1.action == m@.nodes[nodes@[i].0],
            node_keys@ == node_order.take(idx as int),
            submachine@.name == m@.name,
            submachine.edges@.len() == 0,
            submachine@.nodes == node_order.take(idx as int).map_values(|k: NodeKey| record_of_action(m@.nodes[k], order)),
    {
        let entry = &nodes[idx];
        assert(nodes@.map_values(|p: (NodeKey, tm::Node)| p.0)[idx as int] == entry.0);
        let action = record_action(&entry.1.action, ids, Ghost(order));
        let ghost prev_nodes = submachine@.nodes;
        submachine.nodes.push(Node { action });
        node_keys.push(entry.0);
        proof {
            assert(submachine@.nodes =~= prev_nodes.push(action));
            assert(node_order.take(idx as int + 1) =~= node_order.take(idx as int).push(entry.0));
            assert(submachine@.nodes =~= node_order.take(idx as int + 1).map_values(|k: NodeKey| record_of_action(m@.nodes[k], order)));
        }
    }
    proof {
        assert(node_order.take(nodes@.len() as int) =~= node_order);
        assert(node_keys@ =~= node_order);
    }
    proof {
        assert forall|k: NodeKey| #[trigger] m@.nodes.contains_key(k) <==> node_order.contains(k) by {
            if m@.nodes.contains_key(k) {
                let i = choose|i: int| 0 <= i < nodes@.len() && #[trigger] nodes@[i].0 == k;
                assert(node_order[i] == nodes@.map_values(|p: (NodeKey, tm::Node)| p.0)[i]);
            }
            if node_order.contains(k) {
                let i = choose|i: int| 0 <= i < node_order.len() && node_order[i] == k;
                assert(node_order[i] == nodes@.map_values(|p: (NodeKey, tm::Node)| p.0)[i]);
                assert(m@.nodes.contains_key(nodes@[i].0));
            }
        }
    }
    let node_ids = index_keys(&node_keys);
    let edges = m.edges_iter();
    let ghost edge_order = m.edge_order();
    for idx in 0..edges.len()
        invariant
            positions(node_ids, node_order),
            node_order == m.node_order(),
            forall|k: NodeKey| #[trigger] m@.nodes.contains_key(k) <==> node_order.contains(k),
            forall|e: EdgeKey| #[trigger] m@.edges.contains_key(e) ==> m@.nodes.contains_key(m@.edges[e].source) && m@.nodes.contains_key(m@.edges[e].target),
            edges@.map_values(|p: (EdgeKey, tm::Edge)| p.0) == edge_order,
            forall|i: int| 0 <= i < edges@.len() ==> m@.edges.contains_key(#[trigger] edges@[i].0) && edges@[i].1@ == m@.edges[edges@[i].0],
            submachine@.name == m@.name,
            submachine@.nodes == node_order.map_values(|k: NodeKey| record_of_action(m@.nodes[k], order)),
            submachine@.edges == edge_order.take(idx as int).map_values(|k: EdgeKey| record_of_edge(*m, m@.edges[k])),
    {
        let entry = &edges[idx];
        assert(edges@.map_values(|p: (EdgeKey, tm::Edge)| p.0)[idx as int] == entry.0);
        let edge = &entry.1;
        let chars = symbols_vec(&edge.chars);
        let source = index_map_get(&node_ids, edge.source).unwrap();
        let target = index_map_get(&node_ids, edge.target).unwrap();
        proof {
            let s = node_order.index_of(edge.source);
            lemma_index_of_unique(node_order, s);
            let t = node_order.index_of(edge.target);
            lemma_index_of_unique(node_order, t);
        }
        let ghost prev_edges = submachine@.edges;
        submachine.edges.push(Edge { chars, source, target });
        proof {
            assert(submachine@.edges =~= prev_edges.push(record_of_edge(*m, m@.edges[entry.0])));
            assert(edge_order.take(idx as int + 1) =~= edge_order.take(idx as int).push(entry.0));
            assert(submachine@.edges =~= edge_order.take(idx as int + 1).map_values(|k: EdgeKey| record_of_edge(*m, m@.edges[k])));
        }
    }
    proof {
        assert(edge_order.take(edges@.len() as int) =~= edge_order);
    }
    submachine
}

impl ProjectBundle {
    /// Saves `project`: its submachines in listing order, each with its
    /// nodes and edges in listing order, every key replaced by a position.
    pub fn get_bundle(project: &Project) -> (bundle: ProjectBundle)
        requires
            references_resolve(*project),
        ensures
            bundle@ == bundle_of(*project),
    {
        let letters = project.get_alphabet_iter();
        let mut alphabet: Vec<char> = Vec::new();
        for i in 0..letters.len()
            invariant
                alphabet@ == letters@.take(i as int),
        {
            alphabet.push(letters[i]);
            assert(letters@.take(i as int + 1) =~= letters@.take(i as int).push(letters@[i as int]));
        }
        assert(letters@.take(letters@.len() as int) =~= letters@);
        let name = project.get_name();
        let documents = project.list_submachines();
        let ghost order = project.submachine_order();
        let mut keys: Vec<SubmachineKey> = Vec::new();
        for idx in 0..documents.len()
            invariant
                documents@.len() == order.len(),
                forall|i: int| 0 <= i < documents@.len() ==> (#[trigger] documents@[i]).0 == order[i],
                keys@ == order.take(idx as int),
        {
            keys.push(documents[idx].0);
            assert(order.take(idx as int + 1) =~= order.take(idx as int).push(order[idx as int]));
        }
        assert(order.take(order.len() as int) =~= order);
        let ids = index_keys(&keys);
        let mut submachines: Vec<Submachine> = Vec::new();
        for i in 0..documents.len()
            invariant
                positions(ids, order),
                order == project.submachine_order(),
                references_resolve(*project),
                forall|k: SubmachineKey| #[trigger] order.contains(k) <==> project@.documents.contains_key(k),
                documents@.len() == order.len(),
                forall|a: int| 0 <= a < documents@.len() ==> (#[trigger] documents@[a]).0 == order[a],
                forall|a: int| 0 <= a < documents@.len() ==> project@.documents.contains_key((#[trigger] documents@[a]).0) && *documents@[a].1 == project@.documents[documents@[a].0],
                submachines@.map_values(|m: Submachine| m@) == order.take(i as int).map_values(
                    |k: SubmachineKey| record_of_machine(project@.documents[k].machine, order),
                ),
        {
            let document = documents[i].1;
            assert(documents@[i as int].0 == order[i as int]);
            let ghost m = document.machine;
            assert(machine_resolves(m, project@.documents));
            let record = record_machine(&document.machine, &ids, Ghost(order));
            let ghost before = submachines@.map_values(|m: Submachine| m@);
            submachines.push(record);
            proof {
                assert(submachines@.map_values(|m: Submachine| m@) =~= before.push(record_of_machine(m, order)));
                assert(order.take(i as int + 1) =~= order.take(i as int).push(order[i as int]));
                assert(submachines@.map_values(|m: Submachine| m@) =~= order.take(i as int + 1).map_values(
                    |k: SubmachineKey| record_of_machine(project@.documents[k].machine, order),
                ));
            }
        }
        proof {
            assert(order.take(order.len() as int) =~= order);
        }
        ProjectBundle { name, submachines, alphabet }
    }
}

// - Saving what was loaded

/// Saving the submachine loaded from `r` gives back `r`.
proof fn lemma_machine_round_trip(m: tm::Submachine, r: MachineRecordView, b: BundleView, order: Seq<SubmachineKey>)
    requires
        machine_built(m, r, b, order),
        machine_record_ok(r, order.len(), b.alphabet),
        order.no_duplicates(),
    ensures
        record_of_machine(m, order) == r,
{
    let rec = record_of_machine(m, order);
    assert forall|j: int| 0 <= j < r.nodes.len() implies rec.nodes[j] == r.nodes[j] by {
        let k = m.node_order()[j];
        assert(action_loaded(m@.nodes[k], r.nodes[j], b, order));
        assert(target_ok(r.nodes[j], order.len()));
        match r.nodes[j] {
            Action::Submachine { target_id, power } => {
                lemma_index_of_unique(order, target_id as int);
            },
            _ => {},
        }
    }
    assert(rec.nodes =~= r.nodes);
    assert forall|j: int| 0 <= j < r.edges.len() implies rec.edges[j] == r.edges[j] by {
        let e = r.edges[j];
        assert(edge_record_ok(e, r.nodes.len(), b.alphabet));
        lemma_index_of_unique(m.node_order(), e.source as int);
        lemma_index_of_unique(m.node_order(), e.target as int);
    }
    assert(rec.edges =~= r.edges);
}

/// Saving a loaded project gives back the saved project it was loaded
/// from; and a loaded project can always be saved.
pub proof fn lemma_save_after_load(b: BundleView, p: Project)
    requires
        bundle_ok(b),
        loads(b, p),
    ensures
        references_resolve(p),
        bundle_of(p) == b,
{
    let order = p.submachine_order();
    assert forall|k: SubmachineKey| #[trigger] p@.documents.contains_key(k) implies machine_resolves(p@.documents[k].machine, p@.documents) by {
        let i = order.index_of(k);
        assert(order.contains(k));
        assert(order[i] == k);
        let m = p@.documents[k].machine;
        let r = b.submachines[i];
        assert(machine_loaded(m, r, b, order));
        assert(machine_record_ok(r, b.submachines.len(), b.alphabet));
        assert forall|n: NodeKey| #[trigger] m@.nodes.contains_key(n) implies (m@.nodes[n] matches tm::Action::Submachine { key, .. } ==> p@.documents.contains_key(key)) by {
            let j = m.node_order().index_of(n);
            assert(m.node_order().contains(n));
            assert(m.node_order()[j] == n);
            assert(action_loaded(m@.nodes[m.node_order()[j]], r.nodes[j], b, order));
            assert(target_ok(r.nodes[j], order.len()));
            match r.nodes[j] {
                Action::Submachine { target_id, .. } => {
                    assert(order.contains(order[target_id as int]));
                },
                _ => {},
            }
        }
        assert forall|e: EdgeKey| #[trigger] m@.edges.contains_key(e) implies m@.nodes.contains_key(m@.edges[e].source) && m@.nodes.contains_key(m@.edges[e].target) by {
            let j = m.edge_order().index_of(e);
            assert(m.edge_order().contains(e));
            assert(m.edge_order()[j] == e);
            assert(edge_record_ok(r.edges[j], r.nodes.len(), b.alphabet));
            assert(m.node_order().contains(m.node_order()[r.edges[j].source as int]));
            assert(m.node_order().contains(m.node_order()[r.edges[j].target as int]));
        }
    }
    let saved = bundle_of(p);
    assert forall|i: int| 0 <= i < b.submachines.len() implies saved.submachines[i] == b.submachines[i] by {
        assert(machine_loaded(p@.documents[order[i]].machine, b.submachines[i], b, order));
        assert(machine_record_ok(b.submachines[i], b.submachines.len(), b.alphabet));
        lemma_machine_round_trip(p@.documents[order[i]].machine, b.submachines[i], b, order);
    }
    assert(saved.submachines =~= b.submachines);
}

/// Whether `keys` holds `k`.
fn keys_contain(keys: &Vec<SubmachineKey>, k: SubmachineKey) -> (b: bool)
    ensures
        b == keys@.contains(k),
{
    let mut i: usize = 0;
    while i < keys.len()
        invariant
            i <= keys@.len(),
            forall|j: int| 0 <= j < i ==> keys@[j] != k,
        decreases keys.len() - i,
    {
        if crate::slots::key_eq(keys[i], k) {
            assert(keys@[i as int] == k);
            return true;
        }
        i += 1;
    }
    false
}

/// Whether `m` names only submachines listed in `keys` and joins only its
/// own nodes (`machine_resolves`).
fn machine_resolves_exec(
    m: &tm::Submachine,
    keys: &Vec<SubmachineKey>,
    Ghost(documents): Ghost<Map<SubmachineKey, crate::project::SubmachineDocument>>,
) -> (b: bool)
    requires
        forall|k: SubmachineKey| #[trigger] keys@.contains(k) <==> documents.contains_key(k),
    ensures
        b == machine_resolves(*m, documents),
{
    let nodes = m.nodes_iter();
    for i in 0..nodes.len()
        invariant
            forall|k: SubmachineKey| #[trigger] keys@.contains(k) <==> documents.contains_key(k),
            forall|k: NodeKey| m@.nodes.contains_key(k) <==> exists|j: int| 0 <= j < nodes@.len() && #[trigger] nodes@[j].0 == k,
            forall|j: int| 0 <= j < nodes@.len() ==> m@.nodes.contains_key(#[trigger] nodes@[j].0) && nodes@[j].1.action == m@.nodes[nodes@[j].0],
            forall|j: int| 0 <= j < i ==> (m@.nodes[#[trigger] nodes@[j].0] matches tm::Action::Submachine { key, .. } ==> documents.contains_key(key)),
    {
        match &nodes[i].1.action {
            tm::Action::Submachine { key, .. } => {
                if !keys_contain(keys, *key) {
                    proof {
                        let k = nodes@[i as int].0;
                        assert(m@.nodes.contains_key(k));
                        assert(m@.nodes[k] == nodes@[i as int].1.action);
                        assert(!documents.contains_key(*key));
                    }
                    return false;
                }
            },
            _ => {},
        }
    }
    let edges = m.edges_iter();
    for i in 0..edges.len()
        invariant
            forall|k: NodeKey| m@.nodes.contains_key(k) <==> exists|j: int| 0 <= j < nodes@.len() && #[trigger] nodes@[j].0 == k,
            forall|j: int| 0 <= j < nodes@.len() ==> (m@.nodes[#[trigger] nodes@[j].0] matches tm::Action::Submachine { key, .. } ==> documents.contains_key(key)),
            forall|k: EdgeKey| m@.edges.contains_key(k) <==> exists|j: int| 0 <= j < edges@.len() && #[trigger] edges@[j].0 == k,
            forall|j: int| 0 <= j < edges@.len() ==> m@.edges.contains_key(#[trigger] edges@[j].0) && edges@[j].1@ == m@.edges[edges@[j].0],
            forall|j: int| 0 <= j < i ==> m@.nodes.contains_key(m@.edges[#[trigger] edges@[j].0].source) && m@.nodes.contains_key(m@.edges[edges@[j].0].target),
    {
        let e = &edges[i].1;
        if m.get_node(e.source).is_none() || m.get_node(e.target).is_none() {
            proof {
                let k = edges@[i as int].0;
                assert(m@.edges.contains_key(k));
                assert(m@.edges[k] == edges@[i as int].1@);
            }
            return false;
        }
    }
    proof {
        assert forall|k: NodeKey| #[trigger] m@.nodes.contains_key(k) implies (m@.nodes[k] matches tm::Action::Submachine { key, .. } ==> documents.contains_key(key)) by {
            let j = choose|j: int| 0 <= j < nodes@.len() && #[trigger] nodes@[j].0 == k;
        }
        assert forall|e: EdgeKey| #[trigger] m@.edges.contains_key(e) implies m@.nodes.contains_key(m@.edges[e].source) && m@.nodes.contains_key(m@.edges[e].target) by {
            let j = choose|j: int| 0 <= j < edges@.len() && #[trigger] edges@[j].0 == e;
        }
    }
    true
}

impl ProjectBundle {
    /// Whether everything the submachines of `project` name exists
    /// (`references_resolve`), which `get_bundle` needs.
    pub fn can_bundle(project: &Project) -> (ok: bool)
        ensures
            ok == references_resolve(*project),
    {
        let documents = project.list_submachines();
        let ghost order = project.submachine_order();
        let mut keys: Vec<SubmachineKey> = Vec::new();
        for idx in 0..documents.len()
            invariant
                documents@.len() == order.len(),
                forall|i: int| 0 <= i < documents@.len() ==> (#[trigger] documents@[i]).0 == order[i],
                keys@ == order.take(idx as int),
        {
            keys.push(documents[idx].0);
            assert(order.take(idx as int + 1) =~= order.take(idx as int).push(order[idx as int]));
        }
        assert(order.take(order.len() as int) =~= order);
        for i in 0..documents.len()
            invariant
                keys@ == order,
                forall|k: SubmachineKey| #[trigger] order.contains(k) <==> project@.documents.contains_key(k),
                documents@.len() == order.len(),
                forall|a: int| 0 <= a < documents@.len() ==> (#[trigger] documents@[a]).0 == order[a],
                forall|a: int| 0 <= a < documents@.len() ==> project@.documents.contains_key((#[trigger] documents@[a]).0) && *documents@[a].1 == project@.documents[documents@[a].0],
                forall|a: int| 0 <= a < i ==> machine_resolves(project@.documents[#[trigger] order[a]].machine, project@.documents),
        {
            assert(documents@[i as int].0 == order[i as int]);
            if !machine_resolves_exec(&documents[i].1.machine, &keys, Ghost(project@.documents)) {
                return false;
            }
        }
        proof {
            assert forall|k: SubmachineKey| #[trigger] project@.documents.contains_key(k) implies machine_resolves(project@.documents[k].machine, project@.documents) by {
                assert(order.contains(k));
                let a = choose|a: int| 0 <= a < order.len() && order[a] == k;
                assert(machine_resolves(project@.documents[order[a]].machine, project@.documents));
            }
        }
        true
    }
}

// - Loading what was saved

/// The listings of `p` are no longer than a `usize` counts, as the slot
/// maps that hold them never are.
pub open spec fn listings_fit(p: Project) -> bool {
    &&& p.submachine_order().len() <= usize::MAX
    &&& forall|k: SubmachineKey| #[trigger] p@.documents.contains_key(k) ==> p@.documents[k].machine.node_order().len() <= usize::MAX
}

/// `b` is the action `a` of the project `p` after saving `p` and loading
/// it into a project whose submachines `order` lists: the same action,
/// except that a submachine call names the loaded copy of its target, by
/// the target's current name.
pub open spec fn action_reloaded(a: tm::Action, b: tm::Action, p: Project, order: Seq<SubmachineKey>) -> bool {
    match a {
        tm::Action::Submachine { key, power, .. } => b matches tm::Action::Submachine { name: n2, key: k2, power: p2 }
            && p2 == power && k2 == order[p.submachine_order().index_of(key)]
            && n2@ == p@.documents[key].machine@.name,
        _ => b == a,
    }
}

/// `n` is the submachine `m` of `p` after saving `p` and loading it into a
/// project whose submachines `order` lists: the same name, the same nodes
/// and edges listed in the same order, and validated against `alphabet`.
pub open spec fn machine_reloaded(
    m: tm::Submachine,
    n: tm::Submachine,
    p: Project,
    order: Seq<SubmachineKey>,
    alphabet: Seq<char>,
) -> bool {
    &&& n@.name == m@.name
    &&& n.well_listed()
    &&& n.node_order().len() == m.node_order().len()
    &&& forall|j: int| 0 <= j < m.node_order().len() ==> action_reloaded(
        m@.nodes[#[trigger] m.node_order()[j]],
        n@.nodes[n.node_order()[j]],
        p,
        order,
    )
    &&& n.edge_order().len() == m.edge_order().len()
    &&& forall|j: int| 0 <= j < m.edge_order().len() ==> n@.edges[n.edge_order()[j]] == (EdgeView {
        chars: m@.edges[#[trigger] m.edge_order()[j]].chars,
        source: n.node_order()[m.node_order().index_of(m@.edges[m.edge_order()[j]].source)],
        target: n.node_order()[m.node_order().index_of(m@.edges[m.edge_order()[j]].target)],
    })
    &&& n@.problems == all_problems(n@.nodes, n@.edges, alphabet)
}

/// Loading the saved form of one submachine gives it back.
proof fn lemma_machine_reload(m: tm::Submachine, n: tm::Submachine, p: Project, q_order: Seq<SubmachineKey>)
    requires
        p.well_listed(),
        references_resolve(p),
        listings_fit(p),
        m.well_listed(),
        m.node_order().len() <= usize::MAX,
        machine_resolves(m, p@.documents),
        q_order.len() == p.submachine_order().len(),
        machine_loaded(n, record_of_machine(m, p.submachine_order()), bundle_of(p), q_order),
    ensures
        machine_reloaded(m, n, p, q_order, p@.alphabet),
{
    let order = p.submachine_order();
    let b = bundle_of(p);
    let rec = record_of_machine(m, order);
    assert forall|j: int| 0 <= j < m.node_order().len() implies action_reloaded(
        m@.nodes[#[trigger] m.node_order()[j]],
        n@.nodes[n.node_order()[j]],
        p,
        q_order,
    ) by {
        let k = m.node_order()[j];
        assert(m.node_order().contains(k));
        assert(m@.nodes.contains_key(k));
        assert(rec.nodes[j] == record_of_action(m@.nodes[k], order));
        assert(action_loaded(n@.nodes[n.node_order()[j]], rec.nodes[j], b, q_order));
        match m@.nodes[k] {
            tm::Action::Submachine { key, power, .. } => {
                assert(p@.documents.contains_key(key));
                assert(order.contains(key));
                let t = order.index_of(key);
                assert(0 <= t < order.len() && order[t] == key);
                assert(b.submachines[t] == record_of_machine(p@.documents[order[t]].machine, order));
            },
            _ => {},
        }
    }
    assert forall|j: int| 0 <= j < m.edge_order().len() implies n@.edges[n.edge_order()[j]] == (EdgeView {
        chars: m@.edges[#[trigger] m.edge_order()[j]].chars,
        source: n.node_order()[m.node_order().index_of(m@.edges[m.edge_order()[j]].source)],
        target: n.node_order()[m.node_order().index_of(m@.edges[m.edge_order()[j]].target)],
    }) by {
        let e = m.edge_order()[j];
        assert(m.edge_order().contains(e));
        assert(m@.edges.contains_key(e));
        let v = m@.edges[e];
        assert(m.node_order().contains(v.source));
        assert(m.node_order().contains(v.target));
        let s = m.node_order().index_of(v.source);
        let t = m.node_order().index_of(v.target);
        assert(0 <= s < m.node_order().len() && m.node_order()[s] == v.source);
        assert(0 <= t < m.node_order().len() && m.node_order()[t] == v.target);
        assert(rec.edges[j] == record_of_edge(m, v));
    }
}

/// Loading the saved form of a project gives the project back, up to the
/// keys that name its parts: the same name and alphabet, the same
/// submachines in the same order, each with the same nodes and edges in
/// the same order; a submachine call names the loaded copy of its target,
/// by the target's current name; every submachine is validated; the first
/// submachine is the entry machine and the one being edited.
pub proof fn lemma_load_after_save(p: Project, q: Project)
    requires
        p.well_listed(),
        listings_fit(p),
        references_resolve(p),
        loads(bundle_of(p), q),
    ensures
        q@.name == p@.name,
        q@.alphabet == p@.alphabet,
        q.well_listed(),
        q.submachine_order().len() == p.submachine_order().len(),
        q@.entry == q.submachine_order()[0],
        q@.current == q.submachine_order()[0],
        forall|i: int| 0 <= i < p.submachine_order().len() ==> machine_reloaded(
            p@.documents[#[trigger] p.submachine_order()[i]].machine,
            q@.documents[q.submachine_order()[i]].machine,
            p,
            q.submachine_order(),
            p@.alphabet,
        ),
{
    let order = p.submachine_order();
    let q_order = q.submachine_order();
    let b = bundle_of(p);
    assert forall|i: int| 0 <= i < order.len() implies machine_reloaded(
        p@.documents[#[trigger] order[i]].machine,
        q@.documents[q_order[i]].machine,
        p,
        q_order,
        p@.alphabet,
    ) by {
        let k = order[i];
        assert(order.contains(k));
        assert(p@.documents.contains_key(k));
        let m = p@.documents[k].machine;
        assert(b.submachines[i] == record_of_machine(m, order));
        assert(machine_loaded(q@.documents[q_order[i]].machine, b.submachines[i], b, q_order));
        lemma_machine_reload(m, q@.documents[q_order[i]].machine, p, q_order);
    }
    assert forall|k: SubmachineKey| #[trigger] q@.documents.contains_key(k) implies q@.documents[k].machine.well_listed() by {
        assert(q_order.contains(k));
        let i = q_order.index_of(k);
        assert(q_order[i] == k);
        assert(machine_loaded(q@.documents[q_order[i]].machine, b.submachines[i], b, q_order));
    }
}

} // verus!
