//! Node registry: maps a node id to its kind and to its position within the
//! vector that holds all nodes of that kind.

use vstd::prelude::*;

verus! {

/// The kind of a node in the supervised network. Assigned once when a
/// topology is loaded and immutable afterwards.
#[derive(Clone, Copy, PartialEq, Eq, Structural, Debug)]
pub enum NodeType {
    Drone,
    Client,
    Server,
}

/// The numeric code the observer uses for a node kind: 0 for a drone,
/// 1 for a client, 2 for a server. A lookup miss is reported as -1.
pub open spec fn kind_code(kind: NodeType) -> int {
    match kind {
        NodeType::Drone => 0,
        NodeType::Client => 1,
        NodeType::Server => 2,
    }
}

/// One registry record: a node id with its kind and position.
#[derive(Clone, Copy, PartialEq, Eq, Structural, Debug)]
struct RegistryEntry {
    id: i32,
    kind: NodeType,
    position: i32,
}

/// The mathematical content of a sequence of registry records: the map from
/// id to (kind, position), later records winning over earlier ones.
spec fn entry_map(s: Seq<RegistryEntry>) -> Map<int, (NodeType, int)>
    decreases s.len(),
{
    if s.len() == 0 {
        Map::empty()
    } else {
        entry_map(s.drop_last()).insert(
            s.last().id as int,
            (s.last().kind, s.last().position as int),
        )
    }
}

spec fn has_id(s: Seq<RegistryEntry>, id: int) -> bool {
    exists|i: int| 0 <= i < s.len() && s[i].id == id
}

spec fn unique_ids(s: Seq<RegistryEntry>) -> bool {
    forall|i: int, j: int| 0 <= i < j < s.len() ==> s[i].id != s[j].id
}

proof fn lemma_entry_map(s: Seq<RegistryEntry>)
    ensures
        forall|id: int| #[trigger] entry_map(s).dom().contains(id) <==> has_id(s, id),
        unique_ids(s) ==> forall|i: int|
            0 <= i < s.len() ==> entry_map(s)[(#[trigger] s[i]).id as int] == (
                s[i].kind,
                s[i].position as int,
            ),
    decreases s.len(),
{
    if s.len() > 0 {
        let t = s.drop_last();
        lemma_entry_map(t);
        assert forall|id: int| #[trigger] entry_map(s).dom().contains(id) implies has_id(s, id) by {
            if id == s.last().id {
                assert(s[s.len() - 1].id == id);
            } else {
                assert(entry_map(t).dom().contains(id));
                assert(has_id(t, id));
                let i = choose|i: int| 0 <= i < t.len() && t[i].id == id;
                assert(s[i].id == id);
            }
        }
        assert forall|id: int| has_id(s, id) implies #[trigger] entry_map(s).dom().contains(id) by {
            let i = choose|i: int| 0 <= i < s.len() && s[i].id == id;
            if i < s.len() - 1 {
                assert(t[i].id == id);
                assert(has_id(t, id));
                assert(entry_map(t).dom().contains(id));
            } else {
                assert(id == s.last().id);
            }
        }
        if unique_ids(s) {
            assert forall|i: int|
                0 <= i < s.len() implies entry_map(s)[(#[trigger] s[i]).id as int] == (
                s[i].kind,
                s[i].position as int,
            ) by {
                if i < s.len() - 1 {
                    assert(t[i] == s[i]);
                    assert(s[i].id != s.last().id);
                }
            }
        }
    }
}

/// The registry. Populated once per topology load, cleared and rebuilt on a
/// topology swap. Lookups on departed ids report a miss rather than failing,
/// since event classification must tolerate ids that crashed after the event
/// was generated.
pub struct Registry {
    entries: Vec<RegistryEntry>,
}

impl View for Registry {
    type V = Map<int, (NodeType, int)>;

    closed spec fn view(&self) -> Map<int, (NodeType, int)> {
        entry_map(self.entries@)
    }
}

impl Registry {
    #[verifier::type_invariant]
    spec fn inv(self) -> bool {
        unique_ids(self.entries@)
    }

    /// An empty registry.
    pub fn new() -> (r: Registry)
        ensures
            r@ == Map::<int, (NodeType, int)>::empty(),
    {
        Registry { entries: Vec::new() }
    }

    /// Record a node that is not yet registered.
    pub fn insert(&mut self, id: i32, kind: NodeType, position: i32)
        requires
            !old(self)@.dom().contains(id as int),
        ensures
            final(self)@ == old(self)@.insert(id as int, (kind, position as int)),
    {
        proof {
            use_type_invariant(&*self);
            lemma_entry_map(self.entries@);
        }
        let ghost pre = self.entries@;
        let mut entries: Vec<RegistryEntry> = Vec::new();
        std::mem::swap(&mut entries, &mut self.entries);
        entries.push(RegistryEntry { id, kind, position });
        self.entries = entries;
        proof {
            assert(self.entries@.drop_last() == pre);
        }
    }

    /// Look a node up: its kind and position, or `None` for a departed or
    /// unknown id.
    #[verifier::loop_isolation(false)]
    pub fn lookup(&self, id: i32) -> (r: Option<(NodeType, i32)>)
        ensures
            r is Some <==> self@.dom().contains(id as int),
            r matches Some(kp) ==> self@[id as int] == (kp.0, kp.1 as int),
    {
        proof {
            use_type_invariant(self);
            lemma_entry_map(self.entries@);
        }
        let n = self.entries.len();
        let mut i: usize = 0;
        while i < n
            invariant
                n == self.entries@.len(),
                0 <= i <= n,
                forall|j: int| 0 <= j < i ==> (#[trigger] self.entries@[j]).id != id,
            decreases n - i,
        {
            let e = self.entries[i];
            if e.id == id {
                return Some((e.kind, e.position));
            }
            i = i + 1;
        }
        proof {
            assert(!has_id(self.entries@, id as int));
        }
        None
    }

    /// Forget every node. Used when the whole topology is torn down.
    pub fn clear(&mut self)
        ensures
            final(self)@ == Map::<int, (NodeType, int)>::empty(),
    {
        self.entries = Vec::new();
    }

    /// Whether no node is registered.
    pub fn is_empty(&self) -> (b: bool)
        ensures
            b <==> self@ == Map::<int, (NodeType, int)>::empty(),
    {
        proof {
            use_type_invariant(self);
            lemma_entry_map(self.entries@);
            if self.entries@.len() > 0 {
                assert(self@.dom().contains(self.entries@[0].id as int));
            } else {
                assert(self@ =~= Map::<int, (NodeType, int)>::empty());
            }
        }
        self.entries.len() == 0
    }
}

/// What `get_node_type` reports for `id`: the pair of the kind's numeric
/// code and the node's position, or (-1, -1) on a lookup miss.
pub open spec fn spec_node_type(reg: Map<int, (NodeType, int)>, id: int) -> (int, int) {
    if reg.dom().contains(id) {
        (kind_code(reg[id].0), reg[id].1)
    } else {
        (-1, -1)
    }
}

/// Resolve a node id to (kind code, position): 0 for a drone, 1 for a
/// client, 2 for a server, and (-1, -1) when the id is not registered.
pub fn get_node_type(id: i32, id_to_type: &Registry) -> (r: (i32, i32))
    ensures
        (r.0 as int, r.1 as int) == spec_node_type(id_to_type@, id as int),
{
    match id_to_type.lookup(id) {
        Some((NodeType::Drone, index)) => (0, index),
        Some((NodeType::Client, index)) => (1, index),
        Some((NodeType::Server, index)) => (2, index),
        None => (-1, -1),
    }
}

} // verus!
