//! Sets of nodes and maps from nodes to lists of nodes, kept in the hash
//! tables of `bevy_platform`.

use crate::graph::NodeId;
use bevy_platform::collections::{HashMap, HashSet};
use vstd::prelude::*;

verus! {

/// The hasher with a fixed seed that the hash tables of `bevy_platform`
/// use; nothing is known of what is inside it.
#[verifier::external_type_specification]
#[verifier::external_body]
pub struct ExFixedHasher(bevy_platform::hash::FixedHasher);

/// The hash set of `bevy_platform`; what it holds is told by
/// `hash_set_items`.
#[verifier::external_type_specification]
#[verifier::external_body]
#[verifier::reject_recursive_types(T)]
#[verifier::reject_recursive_types(S)]
pub struct ExHashSet<T, S>(bevy_platform::collections::HashSet<T, S>);

/// The hash map of `bevy_platform`; what it holds is told by
/// `hash_map_entries`.
#[verifier::external_type_specification]
#[verifier::external_body]
#[verifier::reject_recursive_types(K)]
#[verifier::reject_recursive_types(V)]
#[verifier::reject_recursive_types(S)]
pub struct ExHashMap<K, V, S>(bevy_platform::collections::HashMap<K, V, S>);

/// The hash set in which the keys of nodes are kept.
pub type KeySet = HashSet<(bool, usize)>;

/// The hash map in which lists of nodes are kept under the keys of nodes.
pub type KeyMap = HashMap<(bool, usize), Vec<NodeId>>;

/// What a hash set of keys holds.
pub uninterp spec fn hash_set_items(s: HashSet<(bool, usize)>) -> Set<(bool, usize)>;

/// What a hash map from keys to lists of nodes holds.
pub uninterp spec fn hash_map_entries(m: HashMap<(bool, usize), Vec<NodeId>>) -> Map<
    (bool, usize),
    Seq<NodeId>,
>;

/// The set that holds no key.
pub open spec fn no_items() -> Set<(bool, usize)> {
    Set::empty()
}

/// The map that has no entry.
pub open spec fn no_entries() -> Map<(bool, usize), Seq<NodeId>> {
    Map::empty()
}

/// `HashSet::new` of `bevy_platform`: a set that holds nothing.
#[verifier::external_body]
fn hash_set_new() -> (s: KeySet)
    ensures
        hash_set_items(s) == no_items(),
{
    HashSet::new()
}

/// `HashSet::insert` of `bevy_platform`, which hands the value to the set of
/// `hashbrown` inside it: afterwards the set holds the value besides what it
/// held, and the result says whether the value was not in it before.
#[verifier::external_body]
fn hash_set_insert(s: &mut KeySet, item: (bool, usize)) -> (fresh: bool)
    ensures
        hash_set_items(*final(s)) == hash_set_items(*old(s)).insert(item),
        fresh == !hash_set_items(*old(s)).contains(item),
{
    s.insert(item)
}

/// `HashSet::contains` of `bevy_platform`: whether the set holds the value.
#[verifier::external_body]
fn hash_set_contains(s: &KeySet, item: (bool, usize)) -> (r: bool)
    ensures
        r == hash_set_items(*s).contains(item),
{
    s.contains(&item)
}

/// `HashMap::new` of `bevy_platform`: a map without entries.
#[verifier::external_body]
fn hash_map_new() -> (m: KeyMap)
    ensures
        hash_map_entries(m) == no_entries(),
{
    HashMap::new()
}

/// `HashMap::get` of `bevy_platform`: the value stored under the key, if
/// there is one.
#[verifier::external_body]
fn hash_map_get<'a>(m: &'a KeyMap, key: (bool, usize)) -> (r: Option<
    &'a Vec<NodeId>,
>)
    ensures
        r is Some == hash_map_entries(*m).contains_key(key),
        r is Some ==> r->0@ == hash_map_entries(*m)[key],
{
    m.get(&key)
}

/// `HashMap::insert` of `bevy_platform`: afterwards the key has the given
/// value and every other key what it had; the result is the value that the
/// key had before, if it had one.
#[verifier::external_body]
fn hash_map_insert(
    m: &mut KeyMap,
    key: (bool, usize),
    value: Vec<NodeId>,
) -> (before: Option<Vec<NodeId>>)
    ensures
        hash_map_entries(*final(m)) == hash_map_entries(*old(m)).insert(key, value@),
        before is Some == hash_map_entries(*old(m)).contains_key(key),
        before is Some ==> before->0@ == hash_map_entries(*old(m))[key],
{
    m.insert(key, value)
}

/// `HashMap::remove` of `bevy_platform`: afterwards the key has no value and
/// every other key what it had; the result is the value that the key had, if
/// it had one.
#[verifier::external_body]
fn hash_map_remove(m: &mut KeyMap, key: (bool, usize)) -> (before:
    Option<Vec<NodeId>>)
    ensures
        hash_map_entries(*final(m)) == hash_map_entries(*old(m)).remove(key),
        before is Some == hash_map_entries(*old(m)).contains_key(key),
        before is Some ==> before->0@ == hash_map_entries(*old(m))[key],
{
    m.remove(&key)
}

/// The key under which a node is stored: whether it is a set, and its number.
pub open spec fn key_of(node: NodeId) -> (bool, usize) {
    match node {
        NodeId::System(i) => (false, i),
        NodeId::SystemSet(i) => (true, i),
    }
}

/// The node that is stored under a key.
pub open spec fn node_of(key: (bool, usize)) -> NodeId {
    if key.0 {
        NodeId::SystemSet(key.1)
    } else {
        NodeId::System(key.1)
    }
}

fn key(node: NodeId) -> (k: (bool, usize))
    ensures
        k == key_of(node),
        node_of(k) == node,
{
    match node {
        NodeId::System(i) => (false, i),
        NodeId::SystemSet(i) => (true, i),
    }
}

/// A set of nodes.
pub struct NodeSet {
    items: KeySet,
}

impl View for NodeSet {
    type V = Set<NodeId>;

    closed spec fn view(&self) -> Set<NodeId> {
        Set::new(|node: NodeId| hash_set_items(self.items).contains(key_of(node)))
    }
}

impl NodeSet {
    /// The empty set.
    pub fn new() -> (s: NodeSet)
        ensures
            s@ == Set::<NodeId>::empty(),
    {
        let s = NodeSet { items: hash_set_new() };
        assert(s@ =~= Set::<NodeId>::empty());
        s
    }

    /// Puts `node` into the set; says whether it was not in it before.
    pub fn insert(&mut self, node: NodeId) -> (fresh: bool)
        ensures
            final(self)@ == old(self)@.insert(node),
            fresh == !old(self)@.contains(node),
    {
        let fresh = hash_set_insert(&mut self.items, key(node));
        assert forall|other: NodeId| #[trigger] self@.contains(other) == old(self)@.insert(node).contains(other) by {
            assert(key_of(other) == key_of(node) <==> other == node) by {
                assert(node_of(key_of(other)) == other);
                assert(node_of(key_of(node)) == node);
            }
        }
        assert(self@ =~= old(self)@.insert(node));
        fresh
    }

    /// Whether `node` is in the set.
    pub fn contains(&self, node: NodeId) -> (r: bool)
        ensures
            r == self@.contains(node),
    {
        hash_set_contains(&self.items, key(node))
    }
}

/// The list that `map` has for `node`: empty where it has none.
pub open spec fn bucket(map: Map<NodeId, Seq<NodeId>>, node: NodeId) -> Seq<NodeId> {
    if map.contains_key(node) {
        map[node]
    } else {
        Seq::empty()
    }
}

/// A map from nodes to lists of nodes.
pub struct NodeMap {
    entries: KeyMap,
}

impl View for NodeMap {
    type V = Map<NodeId, Seq<NodeId>>;

    closed spec fn view(&self) -> Map<NodeId, Seq<NodeId>> {
        Map::new(
            |node: NodeId| hash_map_entries(self.entries).contains_key(key_of(node)),
            |node: NodeId| hash_map_entries(self.entries)[key_of(node)],
        )
    }
}

impl NodeMap {
    /// The map without entries.
    pub fn new() -> (m: NodeMap)
        ensures
            m@ == Map::<NodeId, Seq<NodeId>>::empty(),
    {
        let m = NodeMap { entries: hash_map_new() };
        assert(m@ =~= Map::<NodeId, Seq<NodeId>>::empty());
        m
    }

    /// The list stored for `node`, if there is one.
    pub fn get(&self, node: NodeId) -> (r: Option<&Vec<NodeId>>)
        ensures
            r is Some == self@.contains_key(node),
            r is Some ==> r->0@ == self@[node],
    {
        hash_map_get(&self.entries, key(node))
    }

    /// Adds `value` at the end of the list stored for `node`, which is
    /// empty where the map has none yet.
    pub fn push(&mut self, node: NodeId, value: NodeId)
        ensures
            final(self)@ == old(self)@.insert(node, bucket(old(self)@, node).push(value)),
    {
        let k = key(node);
        let mut list = match hash_map_remove(&mut self.entries, k) {
            Some(list) => list,
            None => Vec::new(),
        };
        list.push(value);
        let ghost stored = list@;
        let _ = hash_map_insert(&mut self.entries, k, list);
        assert(stored == bucket(old(self)@, node).push(value));
        assert(hash_map_entries(self.entries) =~= hash_map_entries(old(self).entries).insert(
            k,
            stored,
        ));
        assert forall|other: NodeId|
            #[trigger] self@.contains_key(other) == old(self)@.insert(node, stored).contains_key(
                other,
            ) && (self@.contains_key(other) ==> self@[other] == old(self)@.insert(
                node,
                stored,
            )[other]) by {
            assert(node_of(key_of(other)) == other);
            assert(node_of(key_of(node)) == node);
        }
        assert(self@ =~= old(self)@.insert(node, stored));
    }
}

/// A set of numbers of components.
pub struct IdSet {
    items: NodeSet,
}

impl View for IdSet {
    type V = Set<usize>;

    closed spec fn view(&self) -> Set<usize> {
        Set::new(|id: usize| self.items@.contains(NodeId::System(id)))
    }
}

impl IdSet {
    /// The empty set.
    pub fn new() -> (s: IdSet)
        ensures
            s@ == Set::<usize>::empty(),
    {
        let s = IdSet { items: NodeSet::new() };
        assert(s@ =~= Set::<usize>::empty());
        s
    }

    /// Puts `id` into the set; says whether it was not in it before.
    pub fn insert(&mut self, id: usize) -> (fresh: bool)
        ensures
            final(self)@ == old(self)@.insert(id),
            fresh == !old(self)@.contains(id),
    {
        let fresh = self.items.insert(NodeId::System(id));
        assert(self@ =~= old(self)@.insert(id));
        fresh
    }

    /// Whether `id` is in the set.
    pub fn contains(&self, id: usize) -> (r: bool)
        ensures
            r == self@.contains(id),
    {
        self.items.contains(NodeId::System(id))
    }
}

/// The list that `map` has for `id`: empty where it has none.
pub open spec fn id_bucket(map: Map<usize, Seq<NodeId>>, id: usize) -> Seq<NodeId> {
    if map.contains_key(id) {
        map[id]
    } else {
        Seq::empty()
    }
}

/// A map from numbers of components to lists of nodes.
pub struct IdMap {
    entries: NodeMap,
}

impl View for IdMap {
    type V = Map<usize, Seq<NodeId>>;

    closed spec fn view(&self) -> Map<usize, Seq<NodeId>> {
        Map::new(
            |id: usize| self.entries@.contains_key(NodeId::System(id)),
            |id: usize| self.entries@[NodeId::System(id)],
        )
    }
}

impl IdMap {
    /// The map without entries.
    pub fn new() -> (m: IdMap)
        ensures
            m@ == Map::<usize, Seq<NodeId>>::empty(),
    {
        let m = IdMap { entries: NodeMap::new() };
        assert(m@ =~= Map::<usize, Seq<NodeId>>::empty());
        m
    }

    /// The list stored for `id`, if there is one.
    pub fn get(&self, id: usize) -> (r: Option<&Vec<NodeId>>)
        ensures
            r is Some == self@.contains_key(id),
            r is Some ==> r->0@ == self@[id],
    {
        self.entries.get(NodeId::System(id))
    }

    /// Adds `value` at the end of the list stored for `id`, which is empty
    /// where the map has none yet.
    pub fn push(&mut self, id: usize, value: NodeId)
        ensures
            final(self)@ == old(self)@.insert(id, id_bucket(old(self)@, id).push(value)),
    {
        self.entries.push(NodeId::System(id), value);
        assert(self@ =~= old(self)@.insert(id, id_bucket(old(self)@, id).push(value)));
    }
}

} // verus!
