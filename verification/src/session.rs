use vstd::prelude::*;
use vstd::std_specs::cmp::PartialEqSpecImpl;

use crate::slots::key_eq;
use crate::tm::{EdgeKey, NodeKey};

verus! {

/// Names a note of a submachine's layout.
pub type NoteKey = slotmap::DefaultKey;

/// Something on the canvas that can be selected.
#[derive(Debug, Clone, Copy, Eq, Hash)]
pub enum SelectableKey {
    Node(NodeKey),
    Edge(EdgeKey),
    Note(NoteKey),
}

impl PartialEq for SelectableKey {
    fn eq(&self, other: &Self) -> (r: bool) {
        match (self, other) {
            (SelectableKey::Node(a), SelectableKey::Node(b)) => key_eq(*a, *b),
            (SelectableKey::Edge(a), SelectableKey::Edge(b)) => key_eq(*a, *b),
            (SelectableKey::Note(a), SelectableKey::Note(b)) => key_eq(*a, *b),
            _ => false,
        }
    }
}

impl PartialEqSpecImpl for SelectableKey {
    open spec fn obeys_eq_spec() -> bool {
        true
    }

    open spec fn eq_spec(&self, other: &SelectableKey) -> bool {
        *self == *other
    }
}

/// The node a key names, if it names a node.
pub open spec fn as_node(k: SelectableKey) -> Option<NodeKey> {
    match k {
        SelectableKey::Node(n) => Some(n),
        _ => None,
    }
}

/// The single selected item, if exactly one is selected.
pub open spec fn only(s: Seq<SelectableKey>) -> Option<SelectableKey> {
    if s.len() == 1 {
        Some(s[0])
    } else {
        None
    }
}

/// Whether a key is not `id`, as a function.
pub open spec fn other_than(id: SelectableKey) -> spec_fn(SelectableKey) -> bool {
    |s: SelectableKey| s != id
}

/// The selection `selected` with `id` toggled: every occurrence of `id` dropped
/// where it is selected, `id` added last otherwise.
pub open spec fn toggled(selected: Seq<SelectableKey>, id: SelectableKey) -> Seq<SelectableKey> {
    if selected.contains(id) {
        selected.filter(other_than(id))
    } else {
        selected.push(id)
    }
}

/// Dropping `id` from a selection that does not hold it changes nothing.
proof fn lemma_filter_absent(s: Seq<SelectableKey>, id: SelectableKey)
    requires
        !s.contains(id),
    ensures
        s.filter(other_than(id)) == s,
    decreases s.len(),
{
    reveal(Seq::filter);
    if s.len() > 0 {
        assert(!s.drop_last().contains(id)) by {
            if s.drop_last().contains(id) {
                let j = choose|j: int| 0 <= j < s.drop_last().len() && s.drop_last()[j] == id;
                assert(s[j] == id);
            }
        }
        lemma_filter_absent(s.drop_last(), id);
        assert(s.last() != id) by {
            assert(s[s.len() - 1] == s.last());
        }
        assert(s.drop_last().push(s.last()) =~= s);
    }
}

/// Toggling a key twice gives back the selection when the key was not
/// selected, and the same set of selected keys in any case.
pub proof fn lemma_toggle_twice(s: Seq<SelectableKey>, id: SelectableKey)
    ensures
        !s.contains(id) ==> toggled(toggled(s, id), id) == s,
        toggled(toggled(s, id), id).to_set() == s.to_set(),
{
    let f = other_than(id);
    if !s.contains(id) {
        let t = s.push(id);
        assert(t.contains(id)) by {
            assert(t[s.len() as int] == id);
        }
        reveal(Seq::filter);
        assert(t.drop_last() =~= s);
        lemma_filter_absent(s, id);
        assert(t.filter(f) =~= s);
    } else {
        let t = s.filter(f);
        assert(!t.contains(id)) by {
            if t.contains(id) {
                let j = choose|j: int| 0 <= j < t.len() && t[j] == id;
                s.filter_lemma(f);
                assert(f(t[j]));
            }
        }
        let u = t.push(id);
        assert forall|x: SelectableKey| u.to_set().contains(x) <==> s.to_set().contains(x) by {
            s.filter_lemma(f);
            if x == id {
                assert(u[t.len() as int] == id);
                assert(u.contains(id));
            } else {
                if s.contains(x) {
                    let j = choose|j: int| 0 <= j < s.len() && s[j] == x;
                    assert(t.contains(x));
                    let k = choose|k: int| 0 <= k < t.len() && t[k] == x;
                    assert(u[k] == x);
                }
                if u.contains(x) {
                    let k = choose|k: int| 0 <= k < u.len() && u[k] == x;
                    assert(k < t.len());
                    assert(t[k] == x);
                    assert(t.contains(x));
                    s.lemma_filter_contains_rev(f, x);
                }
            }
        }
        assert(u.to_set() =~= s.to_set());
    }
}

/// What is selected on the canvas, and what the pointer hovers.
#[derive(Clone, Debug)]
pub struct SelectionState {
    pub selected: Vec<SelectableKey>,
    pub hovered: Option<SelectableKey>,
}

impl Default for SelectionState {
    /// Nothing selected, nothing hovered.
    fn default() -> (s: Self)
        ensures
            s.selected@ == Seq::<SelectableKey>::empty(),
            s.hovered is None,
    {
        SelectionState { selected: Vec::new(), hovered: None }
    }
}

impl SelectionState {
    /// Whether `id` is selected.
    pub fn is_selected(&self, id: &SelectableKey) -> (b: bool)
        ensures
            b == self.selected@.contains(*id),
    {
        let mut i: usize = 0;
        while i < self.selected.len()
            invariant
                i <= self.selected@.len(),
                forall|j: int| 0 <= j < i ==> self.selected@[j] != *id,
            decreases self.selected.len() - i,
        {
            if self.selected[i] == *id {
                return true;
            }
            i += 1;
        }
        false
    }

    /// Deselects `id` where it is selected (every occurrence), selects it
    /// otherwise.
    pub fn toggle_selected(&mut self, id: SelectableKey)
        ensures
            final(self).hovered == old(self).hovered,
            final(self).selected@ == toggled(old(self).selected@, id),
    {
        if self.is_selected(&id) {
            let ghost before = self.selected@;
            let mut kept: Vec<SelectableKey> = Vec::new();
            let mut i: usize = 0;
            while i < self.selected.len()
                invariant
                    i <= self.selected@.len(),
                    self.selected@ == before,
                    kept@ == before.take(i as int).filter(other_than(id)),
                decreases self.selected.len() - i,
            {
                let s = self.selected[i];
                proof {
                    assert(before.take(i as int + 1) =~= before.take(i as int).push(s));
                    before.take(i as int).lemma_filter_push(s, other_than(id));
                }
                if s != id {
                    kept.push(s);
                }
                i += 1;
            }
            proof {
                assert(before.take(before.len() as int) =~= before);
            }
            self.selected = kept;
        } else {
            self.selected.push(id);
        }
    }

    /// What a click on the canvas does to the selection. On an item, with
    /// shift or command held, it toggles the item; otherwise it selects the
    /// item alone. On empty canvas it clears the selection unless ctrl,
    /// shift or command is held.
    pub fn apply_click(&mut self, hovered: Option<SelectableKey>, shift: bool, ctrl: bool, command: bool)
        ensures
            match hovered {
                Some(id) => {
                    &&& (shift || command) ==> final(self).selected@ == toggled(old(self).selected@, id)
                    &&& !(shift || command) ==> final(self).selected@ == seq![id]
                    &&& final(self).hovered == old(self).hovered
                },
                None => if !ctrl && !shift && !command {
                    final(self).selected@.len() == 0 && final(self).hovered is None
                } else {
                    *final(self) == *old(self)
                },
            },
    {
        match hovered {
            Some(id) => {
                if shift || command {
                    self.toggle_selected(id);
                } else {
                    self.single_select(id);
                }
            },
            None => {
                if !ctrl && !shift && !command {
                    self.clear();
                }
            },
        }
    }

    /// What pressing the primary button on the canvas and starting to drag
    /// does. On a node or a note that is not selected, the selection is
    /// first cleared (unless `add` is held, ctrl or command) and then holds
    /// that item alone. The items to drag are then returned: the whole
    /// selection for a node, the note alone for a note. Anywhere else,
    /// `None`: whatever was being dragged is let go.
    pub fn start_drag(&mut self, hovered: Option<SelectableKey>, add: bool) -> (drag: Option<Vec<SelectableKey>>)
        ensures
            match hovered {
                Some(SelectableKey::Node(_)) | Some(SelectableKey::Note(_)) => {
                    let id = hovered->0;
                    &&& old(self).selected@.contains(id) ==> *final(self) == *old(self)
                    &&& !old(self).selected@.contains(id) ==> final(self).selected@ == seq![id]
                        && final(self).hovered == (if add { old(self).hovered } else { None })
                    &&& drag matches Some(d) && d@ == (if id is Node {
                        final(self).selected@
                    } else {
                        seq![id]
                    })
                },
                _ => drag is None && *final(self) == *old(self),
            },
    {
        match hovered {
            Some(SelectableKey::Node(key)) => {
                let item = SelectableKey::Node(key);
                if !self.is_selected(&item) {
                    if !add {
                        self.clear();
                    }
                    self.single_select(item);
                }
                let mut drag: Vec<SelectableKey> = Vec::new();
                for i in 0..self.selected.len()
                    invariant
                        drag@ == self.selected@.take(i as int),
                {
                    drag.push(self.selected[i]);
                    assert(self.selected@.take(i as int + 1) =~= self.selected@.take(i as int).push(self.selected@[i as int]));
                }
                assert(self.selected@.take(self.selected@.len() as int) =~= self.selected@);
                Some(drag)
            },
            Some(SelectableKey::Note(key)) => {
                let item = SelectableKey::Note(key);
                if !self.is_selected(&item) {
                    if !add {
                        self.clear();
                    }
                    self.single_select(item);
                }
                Some(vec![item])
            },
            _ => None,
        }
    }

    /// Whether nothing is selected.
    pub fn is_empty(&self) -> (b: bool)
        ensures
            b == (self.selected@.len() == 0),
    {
        self.selected.len() == 0
    }

    /// Selects nothing and hovers nothing.
    pub fn clear(&mut self)
        ensures
            final(self).hovered is None,
            final(self).selected@ == Seq::<SelectableKey>::empty(),
    {
        self.hovered = None;
        self.selected.clear();
    }

    /// Selects `id` alone.
    pub fn single_select(&mut self, id: SelectableKey)
        ensures
            final(self).hovered == old(self).hovered,
            final(self).selected@ == seq![id],
    {
        self.selected.clear();
        self.selected.push(id);
        assert(self.selected@ =~= seq![id]);
    }

    /// The note selected alone, if a note is.
    pub fn single_note(&self) -> (r: Option<NoteKey>)
        ensures
            r == (match only(self.selected@) {
                Some(SelectableKey::Note(k)) => Some(k),
                _ => None,
            }),
    {
        if self.selected.len() == 1 {
            match self.selected[0] {
                SelectableKey::Note(note_key) => Some(note_key),
                _ => None,
            }
        } else {
            None
        }
    }

    /// The node selected alone, if a node is.
    pub fn single_node(&self) -> (r: Option<NodeKey>)
        ensures
            r == (match only(self.selected@) {
                Some(SelectableKey::Node(k)) => Some(k),
                _ => None,
            }),
    {
        if self.selected.len() == 1 {
            match self.selected[0] {
                SelectableKey::Node(node_key) => Some(node_key),
                _ => None,
            }
        } else {
            None
        }
    }

    /// The edge selected alone, if an edge is.
    pub fn single_edge(&self) -> (r: Option<EdgeKey>)
        ensures
            r == (match only(self.selected@) {
                Some(SelectableKey::Edge(k)) => Some(k),
                _ => None,
            }),
    {
        if self.selected.len() == 1 {
            match self.selected[0] {
                SelectableKey::Edge(edge_key) => Some(edge_key),
                _ => None,
            }
        } else {
            None
        }
    }

    /// The selected nodes, in the order of selection.
    pub fn selected_node_keys(&self) -> (v: Vec<NodeKey>)
        ensures
            v@ == self.selected@.filter_map(|k: SelectableKey| as_node(k)),
    {
        let mut out: Vec<NodeKey> = Vec::new();
        let mut i: usize = 0;
        while i < self.selected.len()
            invariant
                i <= self.selected@.len(),
                out@ == self.selected@.take(i as int).filter_map(|k: SelectableKey| as_node(k)),
            decreases self.selected.len() - i,
        {
            proof {
                self.selected@.lemma_filter_map_take_succ(|k: SelectableKey| as_node(k), i as int);
            }
            match self.selected[i] {
                SelectableKey::Node(node_key) => {
                    out.push(node_key);
                },
                _ => {},
            }
            i += 1;
            proof {
                assert(out@ =~= self.selected@.take(i as int).filter_map(|k: SelectableKey| as_node(k)));
            }
        }
        proof {
            assert(self.selected@.take(self.selected@.len() as int) =~= self.selected@);
        }
        out
    }
}

} // verus!
