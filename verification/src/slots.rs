//! The slot maps that hold the submachines of a project and the nodes,
//! edges and node problems of a submachine, and their keys.

use slotmap::{DefaultKey, SecondaryMap, SlotMap};
use vstd::prelude::*;

use crate::project::SubmachineDocument;
use crate::tm::{Edge, Node, NodeProblem};

verus! {

#[verifier::external_type_specification]
#[verifier::external_body]
pub struct ExDefaultKey(DefaultKey);

/// The nodes of a submachine, in a slot map.
#[verifier::external_body]
#[derive(Debug)]
pub struct NodeSlots {
    map: SlotMap<DefaultKey, Node>,
}

/// The edges of a submachine, in a slot map.
#[verifier::external_body]
#[derive(Debug)]
pub struct EdgeSlots {
    map: SlotMap<DefaultKey, Edge>,
}

/// The problems found in the nodes of a submachine, in a secondary map.
#[verifier::external_body]
#[derive(Debug)]
pub struct ProblemSlots {
    map: SecondaryMap<DefaultKey, Vec<NodeProblem>>,
}

/// The nodes a slot map holds, by key.
pub uninterp spec fn node_slots(m: NodeSlots) -> Map<DefaultKey, Node>;

/// The edges a slot map holds, by key.
pub uninterp spec fn edge_slots(m: EdgeSlots) -> Map<DefaultKey, Edge>;

/// The problem lists a secondary map holds, by key.
pub uninterp spec fn problem_slots(m: ProblemSlots) -> Map<
    DefaultKey,
    Seq<NodeProblem>,
>;

/// The keys in use in a slot map of nodes, in slot order: the order in
/// which `keys` and `iter` hand them out.
pub uninterp spec fn node_order(m: NodeSlots) -> Seq<DefaultKey>;

/// No slot of a slot map of nodes below its highest one is vacant, so an
/// insertion takes a new slot at the end.
pub uninterp spec fn node_dense(m: NodeSlots) -> bool;

/// The keys in use in a slot map of edges, in slot order.
pub uninterp spec fn edge_order(m: EdgeSlots) -> Seq<DefaultKey>;

/// No slot of a slot map of edges below its highest one is vacant.
pub uninterp spec fn edge_dense(m: EdgeSlots) -> bool;

/// The 64 bits of a key (`KeyData::as_ffi`): its slot in the low half.
pub uninterp spec fn key_bits(k: DefaultKey) -> u64;

/// The slot a key names.
pub open spec fn key_slot(k: DefaultKey) -> int {
    key_bits(k) as int % 0x1_0000_0000
}

/// Whether two keys are the same (derived `PartialEq` of `DefaultKey`).
///
/// Claimed: the result is true exactly when the two keys are equal; the
/// derived comparison compares the slot and the version that make a key.
#[verifier::external_body]
pub(crate) fn key_eq(a: DefaultKey, b: DefaultKey) -> (r: bool)
    ensures
        r == (a == b),
{
    a == b
}

// --- Nodes

/// An empty slot map of nodes (`SlotMap::with_key`).
///
/// Claimed: the map holds nothing and has no vacant slot (only its
/// sentinel, which it never hands out).
/// Afterwards the slot order lists each key in use exactly once.
#[verifier::external_body]
pub(crate) fn node_map_new() -> (m: NodeSlots)
    ensures
        node_order(m).no_duplicates(),
        forall|k: DefaultKey| #[trigger] node_order(m).contains(k) <==> node_slots(m).contains_key(k),
        node_slots(m).is_empty(),
        node_slots(m).dom().finite(),
        node_order(m) == Seq::<DefaultKey>::empty(),
        node_dense(m),
{
    NodeSlots { map: SlotMap::with_key() }
}

/// Stores a node under a fresh key (`SlotMap::insert`).
///
/// Claimed: the key is not in use before the call and names `v` after it;
/// no other key changes. `insert` panics only when the map is full, which
/// needs `u32::MAX - 1` live values, so fewer are required. With no vacant
/// slot the value goes into a new slot after all others, which keeps the
/// map without vacant slots and puts the key last in slot order.
/// Afterwards the slot order lists each key in use exactly once.
#[verifier::external_body]
pub(crate) fn node_map_insert(m: &mut NodeSlots, v: Node) -> (k: DefaultKey)
    requires
        node_slots(*old(m)).len() < 0xffff_fffe,
    ensures
        node_order(*final(m)).no_duplicates(),
        forall|k: DefaultKey| #[trigger] node_order(*final(m)).contains(k) <==> node_slots(*final(m)).contains_key(k),
        !node_slots(*old(m)).contains_key(k),
        node_slots(*final(m)) == node_slots(*old(m)).insert(k, v),
        node_dense(*old(m)) ==> node_dense(*final(m)) && node_order(*final(m)) == node_order(
            *old(m),
        ).push(k),
{
    m.map.insert(v)
}

/// The node stored under `k` (`SlotMap::get`).
///
/// Claimed: a node exactly when `k` is in use, and then the one it names.
#[verifier::external_body]
pub(crate) fn node_map_get(m: &NodeSlots, k: DefaultKey) -> (r: Option<&Node>)
    ensures
        r matches Some(v) ==> node_slots(*m).contains_key(k) && *v == node_slots(*m)[k],
        r is None ==> !node_slots(*m).contains_key(k),
{
    m.map.get(k)
}

/// The node stored under `k`, to change in place (`SlotMap::get_mut`).
///
/// Claimed: as for `get`; what is written through the reference is what the
/// map holds under `k` afterwards, and nothing else changes.
/// Afterwards the slot order lists each key in use exactly once.
#[verifier::external_body]
pub(crate) fn node_map_get_mut(m: &mut NodeSlots, k: DefaultKey) -> (r: Option<&mut Node>)
    ensures
        node_order(*final(m)).no_duplicates(),
        forall|k: DefaultKey| #[trigger] node_order(*final(m)).contains(k) <==> node_slots(*final(m)).contains_key(k),
        node_order(*final(m)) == node_order(*old(m)),
        node_dense(*final(m)) == node_dense(*old(m)),
        r is Some <==> node_slots(*old(m)).contains_key(k),
        r matches Some(v) ==> *v == node_slots(*old(m))[k] && node_slots(*final(m)) == node_slots(
            *old(m),
        ).insert(k, *final(v)),
        r is None ==> node_slots(*final(m)) == node_slots(*old(m)),
{
    m.map.get_mut(k)
}

/// Takes the node stored under `k` out (`SlotMap::remove`).
///
/// Claimed: `k` is no longer in use afterwards and no other key changes;
/// the removed node is handed back when there was one.
/// Afterwards the slot order lists each key in use exactly once.
#[verifier::external_body]
pub(crate) fn node_map_remove(m: &mut NodeSlots, k: DefaultKey) -> (r: Option<Node>)
    ensures
        node_order(*final(m)).no_duplicates(),
        forall|k: DefaultKey| #[trigger] node_order(*final(m)).contains(k) <==> node_slots(*final(m)).contains_key(k),
        node_slots(*final(m)) == node_slots(*old(m)).remove(k),
        r == (if node_slots(*old(m)).contains_key(k) {
            Some(node_slots(*old(m))[k])
        } else {
            None
        }),
{
    m.map.remove(k)
}

/// The keys in use (`SlotMap::keys`, collected).
///
/// Claimed: each key in use once, in slot order; no two of them name the
/// same slot, and none names the slot of the null key.
#[verifier::external_body]
pub(crate) fn node_map_keys(m: &NodeSlots) -> (ks: Vec<DefaultKey>)
    ensures
        ks@ == node_order(*m),
        ks@.no_duplicates(),
        forall|k: DefaultKey| #[trigger] ks@.contains(k) <==> node_slots(*m).contains_key(k),
        forall|i: int, j: int|
            0 <= i < ks@.len() && 0 <= j < ks@.len() && i != j ==> key_bits(ks@[i]) % 0x1_0000_0000
                != key_bits(ks@[j]) % 0x1_0000_0000,
        forall|i: int| 0 <= i < ks@.len() ==> key_bits(#[trigger] ks@[i]) % 0x1_0000_0000 != 0xffff_ffff,
{
    m.map.keys().collect()
}

// --- Edges

/// An empty slot map of edges (`SlotMap::with_key`).
///
/// Claimed: the map holds nothing.
/// Afterwards the slot order lists each key in use exactly once.
#[verifier::external_body]
pub(crate) fn edge_map_new() -> (m: EdgeSlots)
    ensures
        edge_order(m).no_duplicates(),
        forall|k: DefaultKey| #[trigger] edge_order(m).contains(k) <==> edge_slots(m).contains_key(k),
        edge_slots(m).is_empty(),
        edge_slots(m).dom().finite(),
        edge_order(m) == Seq::<DefaultKey>::empty(),
        edge_dense(m),
{
    EdgeSlots { map: SlotMap::with_key() }
}

/// Stores an edge under a fresh key (`SlotMap::insert`).
///
/// Claimed: as for the nodes.
/// Afterwards the slot order lists each key in use exactly once.
#[verifier::external_body]
pub(crate) fn edge_map_insert(m: &mut EdgeSlots, v: Edge) -> (k: DefaultKey)
    requires
        edge_slots(*old(m)).len() < 0xffff_fffe,
    ensures
        edge_order(*final(m)).no_duplicates(),
        forall|k: DefaultKey| #[trigger] edge_order(*final(m)).contains(k) <==> edge_slots(*final(m)).contains_key(k),
        !edge_slots(*old(m)).contains_key(k),
        edge_slots(*final(m)) == edge_slots(*old(m)).insert(k, v),
        edge_dense(*old(m)) ==> edge_dense(*final(m)) && edge_order(*final(m)) == edge_order(
            *old(m),
        ).push(k),
{
    m.map.insert(v)
}

/// The edge stored under `k` (`SlotMap::get`).
///
/// Claimed: as for the nodes.
#[verifier::external_body]
pub(crate) fn edge_map_get(m: &EdgeSlots, k: DefaultKey) -> (r: Option<&Edge>)
    ensures
        r matches Some(v) ==> edge_slots(*m).contains_key(k) && *v == edge_slots(*m)[k],
        r is None ==> !edge_slots(*m).contains_key(k),
{
    m.map.get(k)
}

/// The edge stored under `k`, to change in place (`SlotMap::get_mut`).
///
/// Claimed: as for the nodes.
/// Afterwards the slot order lists each key in use exactly once.
#[verifier::external_body]
pub(crate) fn edge_map_get_mut(m: &mut EdgeSlots, k: DefaultKey) -> (r: Option<&mut Edge>)
    ensures
        edge_order(*final(m)).no_duplicates(),
        forall|k: DefaultKey| #[trigger] edge_order(*final(m)).contains(k) <==> edge_slots(*final(m)).contains_key(k),
        edge_order(*final(m)) == edge_order(*old(m)),
        edge_dense(*final(m)) == edge_dense(*old(m)),
        r is Some <==> edge_slots(*old(m)).contains_key(k),
        r matches Some(v) ==> *v == edge_slots(*old(m))[k] && edge_slots(*final(m)) == edge_slots(
            *old(m),
        ).insert(k, *final(v)),
        r is None ==> edge_slots(*final(m)) == edge_slots(*old(m)),
{
    m.map.get_mut(k)
}

/// Takes the edge stored under `k` out (`SlotMap::remove`).
///
/// Claimed: as for the nodes.
/// Afterwards the slot order lists each key in use exactly once.
#[verifier::external_body]
pub(crate) fn edge_map_remove(m: &mut EdgeSlots, k: DefaultKey) -> (r: Option<Edge>)
    ensures
        edge_order(*final(m)).no_duplicates(),
        forall|k: DefaultKey| #[trigger] edge_order(*final(m)).contains(k) <==> edge_slots(*final(m)).contains_key(k),
        edge_slots(*final(m)) == edge_slots(*old(m)).remove(k),
        r == (if edge_slots(*old(m)).contains_key(k) {
            Some(edge_slots(*old(m))[k])
        } else {
            None
        }),
{
    m.map.remove(k)
}

/// The keys in use (`SlotMap::keys`, collected).
///
/// Claimed: each key in use once, in slot order.
#[verifier::external_body]
pub(crate) fn edge_map_keys(m: &EdgeSlots) -> (ks: Vec<DefaultKey>)
    ensures
        ks@ == edge_order(*m),
        ks@.no_duplicates(),
        forall|k: DefaultKey| #[trigger] ks@.contains(k) <==> edge_slots(*m).contains_key(k),
{
    m.map.keys().collect()
}

// --- Problems

/// An empty secondary map (`SecondaryMap::new`).
///
/// Claimed: the map holds nothing.
#[verifier::external_body]
pub(crate) fn problem_map_new() -> (m: ProblemSlots)
    ensures
        problem_slots(m).is_empty(),
{
    ProblemSlots { map: SecondaryMap::new() }
}

/// Empties a secondary map (`SecondaryMap::clear`).
///
/// Claimed: the map holds nothing afterwards.
#[verifier::external_body]
pub(crate) fn problem_map_clear(m: &mut ProblemSlots)
    ensures
        problem_slots(*final(m)).is_empty(),
{
    m.map.clear()
}

/// Stores `v` under `k` (`SecondaryMap::insert`).
///
/// Claimed: when no stored key names the slot of `k` and `k` is not the
/// null key, the slot is vacant and the insertion takes place: `k` then
/// names `v` and nothing else changes. (On an occupied slot the source
/// replaces older keys and refuses newer ones; that case is excluded.)
#[verifier::external_body]
pub(crate) fn problem_map_insert(
    m: &mut ProblemSlots,
    k: DefaultKey,
    v: Vec<NodeProblem>,
)
    requires
        key_slot(k) != 0xffff_ffff,
        forall|j: DefaultKey| #[trigger]
            problem_slots(*old(m)).contains_key(j) ==> key_slot(j) != key_slot(k),
    ensures
        problem_slots(*final(m)) == problem_slots(*old(m)).insert(k, v@),
{
    m.map.insert(k, v);
}

/// A copy of the list stored under `k` (`SecondaryMap::get`, cloned).
///
/// Claimed: a list exactly when `k` is in use, and then the one it names.
#[verifier::external_body]
pub(crate) fn problem_map_get(m: &ProblemSlots, k: DefaultKey) -> (r: Option<Vec<NodeProblem>>)
    ensures
        r matches Some(v) ==> problem_slots(*m).contains_key(k) && v@ == problem_slots(*m)[k],
        r is None ==> !problem_slots(*m).contains_key(k),
{
    m.map.get(k).cloned()
}

// --- Submachines of a project

/// The submachines of a project, in a slot map.
#[verifier::external_body]
pub struct DocSlots {
    map: SlotMap<DefaultKey, SubmachineDocument>,
}

/// The submachine documents a slot map holds, by key.
pub uninterp spec fn doc_slots(m: DocSlots) -> Map<DefaultKey, SubmachineDocument>;

/// The keys in use in a slot map of submachines, in slot order.
pub uninterp spec fn doc_order(m: DocSlots) -> Seq<DefaultKey>;

/// No slot of a slot map of submachines below its highest one is vacant.
pub uninterp spec fn doc_dense(m: DocSlots) -> bool;

/// An empty slot map of submachines (`SlotMap::with_key`).
///
/// Claimed: as for the nodes.
/// Afterwards the slot order lists each key in use exactly once.
#[verifier::external_body]
pub(crate) fn doc_map_new() -> (m: DocSlots)
    ensures
        doc_order(m).no_duplicates(),
        forall|k: DefaultKey| #[trigger] doc_order(m).contains(k) <==> doc_slots(m).contains_key(k),
        doc_slots(m).is_empty(),
        doc_slots(m).dom().finite(),
        doc_order(m) == Seq::<DefaultKey>::empty(),
        doc_dense(m),
{
    DocSlots { map: SlotMap::with_key() }
}

/// Stores a submachine under a fresh key (`SlotMap::insert`).
///
/// Claimed: as for the nodes.
/// Afterwards the slot order lists each key in use exactly once.
#[verifier::external_body]
pub(crate) fn doc_map_insert(m: &mut DocSlots, v: SubmachineDocument) -> (k: DefaultKey)
    requires
        doc_slots(*old(m)).len() < 0xffff_fffe,
    ensures
        doc_order(*final(m)).no_duplicates(),
        forall|k: DefaultKey| #[trigger] doc_order(*final(m)).contains(k) <==> doc_slots(*final(m)).contains_key(k),
        !doc_slots(*old(m)).contains_key(k),
        doc_slots(*final(m)) == doc_slots(*old(m)).insert(k, v),
        doc_dense(*old(m)) ==> doc_dense(*final(m)) && doc_order(*final(m)) == doc_order(
            *old(m),
        ).push(k),
{
    m.map.insert(v)
}

/// The submachine stored under `k`, to change in place (`SlotMap::get_mut`).
///
/// Claimed: as for the nodes.
/// Afterwards the slot order lists each key in use exactly once.
#[verifier::external_body]
pub(crate) fn doc_map_get_mut(m: &mut DocSlots, k: DefaultKey) -> (r: Option<&mut SubmachineDocument>)
    ensures
        doc_order(*final(m)).no_duplicates(),
        forall|k: DefaultKey| #[trigger] doc_order(*final(m)).contains(k) <==> doc_slots(*final(m)).contains_key(k),
        doc_order(*final(m)) == doc_order(*old(m)),
        doc_dense(*final(m)) == doc_dense(*old(m)),
        r is Some <==> doc_slots(*old(m)).contains_key(k),
        r matches Some(v) ==> *v == doc_slots(*old(m))[k] && doc_slots(*final(m)) == doc_slots(
            *old(m),
        ).insert(k, *final(v)),
        r is None ==> doc_slots(*final(m)) == doc_slots(*old(m)),
{
    m.map.get_mut(k)
}

/// Takes the submachine stored under `k` out (`SlotMap::remove`).
///
/// Claimed: as for the nodes.
/// Afterwards the slot order lists each key in use exactly once.
#[verifier::external_body]
pub(crate) fn doc_map_remove(m: &mut DocSlots, k: DefaultKey) -> (r: Option<SubmachineDocument>)
    ensures
        doc_order(*final(m)).no_duplicates(),
        forall|k: DefaultKey| #[trigger] doc_order(*final(m)).contains(k) <==> doc_slots(*final(m)).contains_key(k),
        doc_slots(*final(m)) == doc_slots(*old(m)).remove(k),
        r == (if doc_slots(*old(m)).contains_key(k) {
            Some(doc_slots(*old(m))[k])
        } else {
            None
        }),
{
    m.map.remove(k)
}

/// The keys in use (`SlotMap::keys`, collected).
///
/// Claimed: each key in use once, in slot order; no two of them name the
/// same slot, and none names the slot of the null key.
#[verifier::external_body]
pub(crate) fn doc_map_keys(m: &DocSlots) -> (ks: Vec<DefaultKey>)
    ensures
        ks@ == doc_order(*m),
        ks@.no_duplicates(),
        forall|k: DefaultKey| #[trigger] ks@.contains(k) <==> doc_slots(*m).contains_key(k),
        forall|i: int, j: int|
            0 <= i < ks@.len() && 0 <= j < ks@.len() && i != j ==> key_bits(ks@[i]) % 0x1_0000_0000
                != key_bits(ks@[j]) % 0x1_0000_0000,
        forall|i: int| 0 <= i < ks@.len() ==> key_bits(#[trigger] ks@[i]) % 0x1_0000_0000 != 0xffff_ffff,
{
    m.map.keys().collect()
}

/// Every key in use with its submachine (`SlotMap::iter`, collected).
///
/// Claimed: the keys come in slot order, each with the submachine it names;
/// as for `keys`, each key in use comes once, no two name the same slot and
/// none names the slot of the null key.
#[verifier::external_body]
pub(crate) fn doc_map_entries(m: &DocSlots) -> (v: Vec<(DefaultKey, &SubmachineDocument)>)
    ensures
        forall|i: int, j: int| 0 <= i < v@.len() && 0 <= j < v@.len() && i != j ==> v@[i].0 != v@[j].0,
        forall|k: DefaultKey| #[trigger] doc_slots(*m).contains_key(k) ==> exists|i: int| 0 <= i < v@.len() && (#[trigger] v@[i]).0 == k,
        forall|i: int, j: int|
            0 <= i < v@.len() && 0 <= j < v@.len() && i != j ==> key_slot(v@[i].0) != key_slot(v@[j].0),
        forall|i: int| 0 <= i < v@.len() ==> key_slot((#[trigger] v@[i]).0) != 0xffff_ffff,
        v@.len() == doc_order(*m).len(),
        forall|i: int| 0 <= i < v@.len() ==> (#[trigger] v@[i]).0 == doc_order(*m)[i],
        forall|i: int| 0 <= i < v@.len() ==> doc_slots(*m).contains_key((#[trigger] v@[i]).0) && *v@[i].1 == doc_slots(*m)[v@[i].0],
{
    m.map.iter().collect()
}

// --- Positions by key

/// The positions of keys in a listing, in a secondary map.
#[verifier::external_body]
pub struct IndexSlots {
    map: SecondaryMap<DefaultKey, usize>,
}

/// The positions a secondary map holds, by key.
pub uninterp spec fn index_slots(m: IndexSlots) -> Map<DefaultKey, usize>;

/// An empty secondary map of positions (`SecondaryMap::new`).
///
/// Claimed: the map holds nothing.
#[verifier::external_body]
pub(crate) fn index_map_new() -> (m: IndexSlots)
    ensures
        index_slots(m).is_empty(),
{
    IndexSlots { map: SecondaryMap::new() }
}

/// Stores `v` under `k` (`SecondaryMap::insert`).
///
/// Claimed: as for the problem lists.
#[verifier::external_body]
pub(crate) fn index_map_insert(m: &mut IndexSlots, k: DefaultKey, v: usize)
    requires
        key_slot(k) != 0xffff_ffff,
        forall|j: DefaultKey| #[trigger]
            index_slots(*old(m)).contains_key(j) ==> key_slot(j) != key_slot(k),
    ensures
        index_slots(*final(m)) == index_slots(*old(m)).insert(k, v),
{
    m.map.insert(k, v);
}

/// The position stored under `k` (`SecondaryMap::get`, copied).
///
/// Claimed: a position exactly when `k` is in use, and then the one it names.
#[verifier::external_body]
pub(crate) fn index_map_get(m: &IndexSlots, k: DefaultKey) -> (r: Option<usize>)
    ensures
        r matches Some(v) ==> index_slots(*m).contains_key(k) && v == index_slots(*m)[k],
        r is None ==> !index_slots(*m).contains_key(k),
{
    m.map.get(k).copied()
}

} // verus!
