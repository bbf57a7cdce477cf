//! A project: named submachines over one alphabet, one of them the entry
//! machine and one the machine being edited.

use slotmap::DefaultKey;
use vstd::prelude::*;

use crate::alphabet::ValidatedAlphabet;
use crate::bundle::{
    bundle_ok, fresh_machine, load_machine, loads, machine_built, machine_loaded, machine_record_ok,
    ProjectBundle,
};
use crate::slots::{
    doc_dense, doc_map_entries, doc_map_get_mut, doc_map_insert, doc_map_keys, doc_map_new,
    doc_map_remove, doc_order, doc_slots, key_eq, key_slot, DocSlots,
};
use crate::tm::{all_problems, Action, NodeKey, Submachine, SubmachineKey, SubmachineView};

verus! {

/// Names an open project.
pub type ProjectKey = DefaultKey;

/// What the menu asks of the set of open projects.
pub enum ProjectAction {
    LoadFromMemory(ProjectKey),
    LoadFromJson(ProjectKey),
    LoadFromRam(ProjectKey),
    CreateProject((String, ValidatedAlphabet)),
    CloseProject,
}

/// One submachine of a project; where its nodes stand on the canvas the
/// editor keeps beside it.
pub struct SubmachineDocument {
    pub machine: Submachine,
}

impl SubmachineDocument {
    /// A document holding an empty submachine called `submachine_name`.
    pub fn new(submachine_name: String) -> (d: Self)
        ensures
            d.machine.well_listed(),
            d.machine@.name == submachine_name@,
            d.machine@.nodes.is_empty(),
            d.machine@.edges.is_empty(),
            d.machine@.problems.is_empty(),
            d.machine@.nodes.dom().finite(),
            d.machine@.edges.dom().finite(),
            d.machine.node_order().len() == 0,
            d.machine.edge_order().len() == 0,
            d.machine.dense(),
    {
        SubmachineDocument { machine: Submachine::new(submachine_name) }
    }

    /// Adds a node doing `node_action` to the submachine.
    pub fn add_node(&mut self, node_action: Action) -> (k: NodeKey)
        requires
            old(self).machine@.nodes.dom().finite(),
            old(self).machine@.nodes.len() < 0xffff_fffe,
        ensures
            old(self).machine.well_listed() ==> final(self).machine.well_listed(),
            !old(self).machine@.nodes.contains_key(k),
            final(self).machine@ == (SubmachineView {
                nodes: old(self).machine@.nodes.insert(k, node_action),
                ..old(self).machine@
            }),
    {
        self.machine.add_node(node_action)
    }

    /// Removes a node and the edges that touch it from the submachine.
    pub fn remove_node(&mut self, node_key: NodeKey)
        ensures
            old(self).machine.well_listed() ==> final(self).machine.well_listed(),
            final(self).machine@ == (SubmachineView {
                nodes: old(self).machine@.nodes.remove(node_key),
                edges: crate::tm::edges_avoiding(old(self).machine@.edges, node_key),
                ..old(self).machine@
            }),
    {
        self.machine.remove_node(node_key)
    }
}

/// Why a submachine was not removed.
#[derive(Debug, Clone, Copy, PartialEq, Eq, Structural)]
pub enum RemoveSubmachineError {
    CannotRemoveCurrentMachine,
    CannotRemoveMainMachine,
}

impl RemoveSubmachineError {
    /// The message that explains the error to a user.
    pub fn message(&self) -> (m: &'static str)
        ensures
            m@ == match self {
                RemoveSubmachineError::CannotRemoveCurrentMachine => "Cannot remove the current active submachine."@,
                RemoveSubmachineError::CannotRemoveMainMachine => "Cannot remove the main machine."@,
            },
    {
        match self {
            RemoveSubmachineError::CannotRemoveCurrentMachine => "Cannot remove the current active submachine.",
            RemoveSubmachineError::CannotRemoveMainMachine => "Cannot remove the main machine.",
        }
    }
}

/// A project as a value.
pub struct ProjectView {
    pub name: Seq<char>,
    pub alphabet: Seq<char>,
    pub current: SubmachineKey,
    pub entry: SubmachineKey,
    pub documents: Map<SubmachineKey, SubmachineDocument>,
}

/// A project: its name, its alphabet, its submachines, the entry machine
/// and the machine being edited.
pub struct Project {
    name: String,
    current_submachine_id: SubmachineKey,
    submachines: DocSlots,
    entry_submachine: SubmachineKey,
    alphabet: ValidatedAlphabet,
}

impl View for Project {
    type V = ProjectView;

    closed spec fn view(&self) -> ProjectView {
        ProjectView {
            name: self.name@,
            alphabet: self.alphabet@,
            current: self.current_submachine_id,
            entry: self.entry_submachine,
            documents: doc_slots(self.submachines),
        }
    }
}

impl Project {
    /// The keys of the submachines in the order `list_submachines` lists them.
    pub closed spec fn submachine_order(&self) -> Seq<SubmachineKey> {
        doc_order(self.submachines)
    }

    /// No submachine was ever taken out, so each new one is listed last.
    pub closed spec fn dense(&self) -> bool {
        doc_dense(self.submachines)
    }

    /// The entry machine exists; no operation removes it.
    pub open spec fn has_entry(&self) -> bool {
        self@.documents.contains_key(self@.entry)
    }

    /// The listings name each submachine exactly once, and each node and
    /// edge of each submachine; every operation keeps this.
    pub open spec fn well_listed(&self) -> bool {
        &&& self.submachine_order().no_duplicates()
        &&& forall|k: SubmachineKey| #[trigger] self.submachine_order().contains(k) <==> self@.documents.contains_key(k)
        &&& forall|k: SubmachineKey| #[trigger] self@.documents.contains_key(k) ==> self@.documents[k].machine.well_listed()
    }

    /// A project with one empty submachine, "Main machine", which is both
    /// the entry machine and the one being edited.
    pub fn new(project_name: String, alphabet: ValidatedAlphabet) -> (p: Self)
        ensures
            p.has_entry(),
            p.well_listed(),
            p@.name == project_name@,
            p@.alphabet == alphabet@,
            p@.current == p@.entry,
            p@.documents.dom() == set![p@.entry],
            p@.documents[p@.entry].machine@.name == "Main machine"@,
            p@.documents[p@.entry].machine@.nodes.is_empty(),
            p@.documents[p@.entry].machine@.edges.is_empty(),
            p@.documents[p@.entry].machine@.problems.is_empty(),
            p.submachine_order() == seq![p@.entry],
            p.dense(),
    {
        let mut submachines = doc_map_new();
        let new_id = doc_map_insert(&mut submachines, SubmachineDocument::new("Main machine".to_string()));
        let p = Project {
            name: project_name,
            current_submachine_id: new_id,
            entry_submachine: new_id,
            submachines,
            alphabet,
        };
        assert(p@.documents.dom() =~= set![new_id]);
        p
    }

    /// Loads a saved project: one submachine per saved one, in saved
    /// order, the first the entry machine and the one being edited; every
    /// submachine is validated against the alphabet.
    pub fn from_bundle(bundle: ProjectBundle) -> (p: Project)
        requires
            bundle_ok(bundle@),
        ensures
            p.has_entry(),
            p.well_listed(),
            loads(bundle@, p),
    {
        broadcast use vstd::seq_lib::group_seq_properties;

        let ghost b = bundle@;
        let validated_alphabet = ValidatedAlphabet::new(bundle.alphabet.clone()).unwrap();
        let n = bundle.submachines.len();
        let mut submachines = doc_map_new();
        let mut keys: Vec<SubmachineKey> = Vec::new();
        for i in 0..n
            invariant
                n == b.submachines.len(),
                b == bundle@,
                bundle_ok(b),
                keys@ == doc_order(submachines),
                doc_dense(submachines),
                keys@.len() == i,
                keys@.no_duplicates(),
                forall|k: SubmachineKey| #[trigger] doc_slots(submachines).contains_key(k) <==> keys@.contains(k),
                doc_slots(submachines).dom().finite(),
                doc_slots(submachines).len() == i,
                forall|a: int| 0 <= a < i ==> fresh_machine(doc_slots(submachines)[#[trigger] keys@[a]].machine, b.submachines[a].name),
        {
            let ghost before = keys@;
            let key = doc_map_insert(&mut submachines, SubmachineDocument::new(bundle.submachines[i].name.clone()));
            keys.push(key);
            proof {
                assert(!before.contains(key));
                assert forall|x: SubmachineKey| #[trigger] doc_slots(submachines).contains_key(x) <==> keys@.contains(x) by {
                    vstd::seq_lib::lemma_seq_contains_after_push(before, key, x);
                }
                assert forall|a: int| 0 <= a < i + 1 implies fresh_machine(doc_slots(submachines)[#[trigger] keys@[a]].machine, b.submachines[a].name) by {
                    if a < i {
                        assert(keys@[a] == before[a]);
                        assert(before[a] != key);
                    }
                }
            }
        }
        let entry_submachine = keys[0];
        for i in 0..n
            invariant
                n == b.submachines.len(),
                b == bundle@,
                bundle_ok(b),
                validated_alphabet@ == b.alphabet,
                keys@ == doc_order(submachines),
                doc_dense(submachines),
                keys@.len() == n,
                keys@.no_duplicates(),
                forall|k: SubmachineKey| #[trigger] doc_slots(submachines).contains_key(k) <==> keys@.contains(k),
                forall|a: int| 0 <= a < i ==> machine_built(doc_slots(submachines)[#[trigger] keys@[a]].machine, b.submachines[a], b, keys@),
                forall|a: int| 0 <= a < i ==> (#[trigger] doc_slots(submachines)[keys@[a]]).machine@.problems.is_empty(),
                forall|a: int| i <= a < n ==> fresh_machine(doc_slots(submachines)[#[trigger] keys@[a]].machine, b.submachines[a].name),
        {
            let key = keys[i];
            assert(keys@.contains(key));
            assert(machine_record_ok(b.submachines[i as int], n as nat, b.alphabet));
            let ghost before = doc_slots(submachines);
            let d = doc_map_get_mut(&mut submachines, key).unwrap();
            load_machine(&mut d.machine, &bundle.submachines[i], &bundle, &keys, &validated_alphabet);
            proof {
                assert forall|a: int| 0 <= a < i + 1 implies machine_built(doc_slots(submachines)[#[trigger] keys@[a]].machine, b.submachines[a], b, keys@) by {
                    if a < i {
                        assert(keys@[a] != key);
                    }
                }
                assert forall|a: int| 0 <= a < i + 1 implies (#[trigger] doc_slots(submachines)[keys@[a]]).machine@.problems.is_empty() by {
                    if a < i {
                        assert(keys@[a] != key);
                    }
                }
                assert forall|a: int| i + 1 <= a < n implies fresh_machine(doc_slots(submachines)[#[trigger] keys@[a]].machine, b.submachines[a].name) by {
                    assert(keys@[a] != key);
                }
            }
        }
        let mut project = Project {
            name: bundle.name,
            current_submachine_id: entry_submachine,
            entry_submachine,
            submachines,
            alphabet: validated_alphabet,
        };
        let ghost built = project@.documents;
        project.validate_machines();
        proof {
            let order = project.submachine_order();
            assert forall|i: int| 0 <= i < order.len() implies machine_loaded(project@.documents[#[trigger] order[i]].machine, b.submachines[i], b, order) by {
                assert(built.contains_key(order[i]));
                assert(validated(built[order[i]].machine, project@.documents[order[i]].machine, b.alphabet));
                assert(machine_built(built[order[i]].machine, b.submachines[i], b, order));
            }
        }
        project
    }

    /// The name of the project.
    pub fn get_name(&self) -> (s: String)
        ensures
            s@ == self@.name,
    {
        self.name.clone()
    }

    /// The key of the submachine being edited.
    pub fn current_submachine_key(&self) -> (k: &SubmachineKey)
        ensures
            *k == self@.current,
    {
        &self.current_submachine_id
    }

    /// The submachine being edited, to change in place.
    pub fn current_document_mut(&mut self) -> (d: &mut SubmachineDocument)
        requires
            old(self)@.documents.contains_key(old(self)@.current),
        ensures
            old(self).has_entry() ==> final(self).has_entry(),
            old(self).well_listed() && final(d).machine.well_listed() ==> final(self).well_listed(),
            *d == old(self)@.documents[old(self)@.current],
            final(self)@ == (ProjectView {
                documents: old(self)@.documents.insert(old(self)@.current, *final(d)),
                ..old(self)@
            }),
            final(self).submachine_order() == old(self).submachine_order(),
            final(self).dense() == old(self).dense(),
    {
        let key = self.current_submachine_id;
        doc_map_get_mut(&mut self.submachines, key).unwrap()
    }

    /// Makes `key` the submachine being edited.
    pub fn set_submachine(&mut self, key: SubmachineKey)
        ensures
            old(self).has_entry() ==> final(self).has_entry(),
            old(self).well_listed() ==> final(self).well_listed(),
            final(self)@ == (ProjectView { current: key, ..old(self)@ }),
            final(self).submachine_order() == old(self).submachine_order(),
            final(self).dense() == old(self).dense(),
    {
        self.current_submachine_id = key;
    }

    /// Adds an empty submachine called `name` and makes it the one being
    /// edited.
    pub fn add_submachine(&mut self, name: String)
        requires
            old(self)@.documents.dom().finite(),
            old(self)@.documents.len() < 0xffff_fffe,
        ensures
            old(self).has_entry() ==> final(self).has_entry(),
            old(self).well_listed() ==> final(self).well_listed(),
            !old(self)@.documents.contains_key(final(self)@.current),
            final(self)@.documents.dom().finite(),
            final(self)@.documents.dom() == old(self)@.documents.dom().insert(final(self)@.current),
            forall|k: SubmachineKey| #[trigger] old(self)@.documents.contains_key(k) ==> final(self)@.documents[k] == old(self)@.documents[k],
            final(self)@.documents[final(self)@.current].machine@.name == name@,
            final(self)@.documents[final(self)@.current].machine@.nodes.is_empty(),
            final(self)@.documents[final(self)@.current].machine@.edges.is_empty(),
            final(self)@.documents[final(self)@.current].machine@.problems.is_empty(),
            final(self)@.name == old(self)@.name,
            final(self)@.alphabet == old(self)@.alphabet,
            final(self)@.entry == old(self)@.entry,
            old(self).dense() ==> final(self).dense() && final(self).submachine_order()
                == old(self).submachine_order().push(final(self)@.current),
    {
        let k = doc_map_insert(&mut self.submachines, SubmachineDocument::new(name));
        self.current_submachine_id = k;
    }

    /// Removes the submachine `id`, unless it is the one being edited or the
    /// entry machine.
    pub fn remove_submachine(&mut self, id: SubmachineKey) -> (r: Result<(), RemoveSubmachineError>)
        ensures
            old(self).has_entry() ==> final(self).has_entry(),
            old(self).well_listed() ==> final(self).well_listed(),
            id == old(self)@.current ==> r == Err::<(), RemoveSubmachineError>(RemoveSubmachineError::CannotRemoveCurrentMachine),
            id != old(self)@.current && id == old(self)@.entry ==> r == Err::<(), RemoveSubmachineError>(RemoveSubmachineError::CannotRemoveMainMachine),
            id != old(self)@.current && id != old(self)@.entry ==> r is Ok,
            r is Ok ==> final(self)@ == (ProjectView {
                documents: old(self)@.documents.remove(id),
                ..old(self)@
            }),
            r is Err ==> final(self)@ == old(self)@ && final(self).submachine_order() == old(self).submachine_order(),
    {
        if key_eq(id, self.current_submachine_id) {
            return Err(RemoveSubmachineError::CannotRemoveCurrentMachine);
        } else if key_eq(id, self.entry_submachine) {
            return Err(RemoveSubmachineError::CannotRemoveMainMachine);
        }
        let _ = doc_map_remove(&mut self.submachines, id);
        proof {
            if old(self).well_listed() {
                assert forall|k: SubmachineKey| #[trigger] self@.documents.contains_key(k) implies self@.documents[k].machine.well_listed() by {
                    assert(old(self)@.documents.contains_key(k));
                }
            }
        }
        Ok(())
    }

    /// The symbols of the alphabet, in order.
    pub fn get_alphabet_iter(&self) -> (s: &[char])
        ensures
            s@ == self@.alphabet,
    {
        self.alphabet.iter()
    }

    /// A copy of the alphabet.
    pub fn get_alphabet(&self) -> (a: ValidatedAlphabet)
        ensures
            a@ == self@.alphabet,
    {
        self.alphabet.clone()
    }

    /// Renames the project.
    pub fn rename_project(&mut self, new_name: String)
        ensures
            old(self).has_entry() ==> final(self).has_entry(),
            old(self).well_listed() ==> final(self).well_listed(),
            final(self)@ == (ProjectView { name: new_name@, ..old(self)@ }),
            final(self).submachine_order() == old(self).submachine_order(),
            final(self).dense() == old(self).dense(),
    {
        self.name = new_name;
    }

    /// The name of the project and the symbols of its alphabet.
    pub fn info(&self) -> (r: (String, &[char]))
        ensures
            r.0@ == self@.name,
            r.1@ == self@.alphabet,
    {
        (self.name.clone(), self.alphabet.iter())
    }

    /// Every submachine with its key, in slot order.
    pub fn list_submachines(&self) -> (v: Vec<(SubmachineKey, &SubmachineDocument)>)
        ensures
            self.submachine_order().no_duplicates(),
            forall|k: SubmachineKey| #[trigger] self.submachine_order().contains(k) <==> self@.documents.contains_key(k),
            forall|i: int, j: int|
                0 <= i < self.submachine_order().len() && 0 <= j < self.submachine_order().len() && i != j
                    ==> key_slot(self.submachine_order()[i]) != key_slot(self.submachine_order()[j]),
            forall|i: int| 0 <= i < self.submachine_order().len() ==> key_slot(#[trigger] self.submachine_order()[i]) != 0xffff_ffff,
            v@.len() == self.submachine_order().len(),
            forall|i: int| 0 <= i < v@.len() ==> (#[trigger] v@[i]).0 == self.submachine_order()[i],
            forall|i: int| 0 <= i < v@.len() ==> self@.documents.contains_key((#[trigger] v@[i]).0) && *v@[i].1 == self@.documents[v@[i].0],
    {
        let v = doc_map_entries(&self.submachines);
        proof {
            let order = self.submachine_order();
            assert forall|i: int, j: int| 0 <= i < order.len() && 0 <= j < order.len() && i != j implies order[i] != order[j] by {
                assert(v@[i].0 == order[i]);
                assert(v@[j].0 == order[j]);
            }
            assert forall|k: SubmachineKey| #[trigger] order.contains(k) <==> self@.documents.contains_key(k) by {
                if self@.documents.contains_key(k) {
                    let i = choose|i: int| 0 <= i < v@.len() && (#[trigger] v@[i]).0 == k;
                    assert(order[i] == k);
                }
                if order.contains(k) {
                    let i = choose|i: int| 0 <= i < order.len() && order[i] == k;
                    assert(v@[i].0 == k);
                }
            }
            assert forall|i: int, j: int|
                0 <= i < order.len() && 0 <= j < order.len() && i != j implies key_slot(order[i]) != key_slot(order[j]) by {
                assert(v@[i].0 == order[i]);
                assert(v@[j].0 == order[j]);
            }
            assert forall|i: int| 0 <= i < order.len() implies key_slot(#[trigger] order[i]) != 0xffff_ffff by {
                assert(v@[i].0 == order[i]);
            }
        }
        v
    }

    /// Finds the problems of every submachine against the alphabet.
    pub fn validate_machines(&mut self)
        ensures
            old(self).has_entry() ==> final(self).has_entry(),
            old(self).well_listed() ==> final(self).well_listed(),
            final(self)@.name == old(self)@.name,
            final(self)@.alphabet == old(self)@.alphabet,
            final(self)@.current == old(self)@.current,
            final(self)@.entry == old(self)@.entry,
            final(self)@.documents.dom() == old(self)@.documents.dom(),
            final(self).submachine_order() == old(self).submachine_order(),
            final(self).dense() == old(self).dense(),
            forall|k: SubmachineKey| #[trigger] old(self)@.documents.contains_key(k) ==> validated(
                old(self)@.documents[k].machine,
                final(self)@.documents[k].machine,
                old(self)@.alphabet,
            ),
    {
        let keys = doc_map_keys(&self.submachines);
        let ghost before = self@.documents;
        for i in 0..keys.len()
            invariant
                keys@.no_duplicates(),
                forall|k: SubmachineKey| #[trigger] keys@.contains(k) <==> before.contains_key(k),
                self@.name == old(self)@.name,
                self@.alphabet == old(self)@.alphabet,
                self@.current == old(self)@.current,
                self@.entry == old(self)@.entry,
                self@.documents.dom() == before.dom(),
                before == old(self)@.documents,
                self.submachine_order() == old(self).submachine_order(),
                self.dense() == old(self).dense(),
                forall|j: int| 0 <= j < i ==> validated(
                    before[#[trigger] keys@[j]].machine,
                    self@.documents[keys@[j]].machine,
                    self@.alphabet,
                ),
                forall|j: int| i <= j < keys@.len() ==> self@.documents[#[trigger] keys@[j]] == before[keys@[j]],
        {
            let k = keys[i];
            assert(keys@.contains(k));
            let alphabet = self.alphabet.clone();
            let ghost mid = self@.documents;
            match doc_map_get_mut(&mut self.submachines, k) {
                Some(d) => {
                    d.machine.validate(alphabet);
                },
                None => {},
            }
            proof {
                assert(self@.documents.dom() =~= before.dom());
                assert forall|j: int| 0 <= j < i + 1 implies validated(
                    before[#[trigger] keys@[j]].machine,
                    self@.documents[keys@[j]].machine,
                    self@.alphabet,
                ) by {
                    if j < i {
                        assert(keys@[j] != k);
                    }
                }
                assert forall|j: int| i + 1 <= j < keys@.len() implies self@.documents[#[trigger] keys@[j]] == before[keys@[j]] by {
                    assert(keys@[j] != k);
                }
            }
        }
        proof {
            assert forall|k: SubmachineKey| #[trigger] old(self)@.documents.contains_key(k) implies validated(
                old(self)@.documents[k].machine,
                self@.documents[k].machine,
                old(self)@.alphabet,
            ) by {
                assert(keys@.contains(k));
                let j = keys@.index_of(k);
                assert(keys@[j] == k);
            }
        }
    }
}

/// `after` is `before` with the problems found against `alphabet`, and
/// listed in the same order.
pub open spec fn validated(before: Submachine, after: Submachine, alphabet: Seq<char>) -> bool {
    &&& after@ == (SubmachineView {
        problems: all_problems(before@.nodes, before@.edges, alphabet),
        ..before@
    })
    &&& after.node_order() == before.node_order()
    &&& after.edge_order() == before.edge_order()
    &&& after.dense() == before.dense()
}

/// Validating a second time finds what the first validation found:
/// validation reads only the nodes and edges, which it leaves as they were.
pub proof fn lemma_validate_twice(a: Submachine, b: Submachine, c: Submachine, alphabet: Seq<char>)
    requires
        validated(a, b, alphabet),
        validated(b, c, alphabet),
    ensures
        c@ == b@,
        c.node_order() == b.node_order(),
        c.edge_order() == b.edge_order(),
{
}

} // verus!
