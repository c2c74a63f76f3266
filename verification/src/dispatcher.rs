//! Command dispatcher: one outgoing channel per node id, and best-effort
//! sends with structured failure reporting.

use vstd::prelude::*;

use crate::command::Command;
use crate::command::SendError;

verus! {

/// Declares crossbeam's channel `Sender` so values of it can be held in
/// the channel map and passed to the send wrapper; the library never looks
/// inside one.
#[verifier::external_type_specification]
#[verifier::external_body]
#[verifier::reject_recursive_types(T)]
pub struct ExSender<T>(crossbeam::channel::Sender<T>);

/// Relies on crossbeam's `Sender::send`: it hands the value to the channel
/// and reports success, or reports failure once every receiving end is
/// gone. Whether the receiver is still there depends on the live network,
/// not on the arguments, so nothing more is assumed of the outcome.
#[verifier::external_body]
fn channel_send(sender: &crossbeam::channel::Sender<Command>, command: Command) -> (delivered:
    bool) {
    sender.send(command).is_ok()
}

/// One channel map entry: a node id and the node's command channel.
struct ChannelEntry {
    id: u8,
    sender: crossbeam::channel::Sender<Command>,
}

/// The mathematical content of a sequence of channel entries: the map from
/// id to channel, later entries winning over earlier ones.
spec fn channel_map_of(s: Seq<ChannelEntry>) -> Map<int, crossbeam::channel::Sender<Command>>
    decreases s.len(),
{
    if s.len() == 0 {
        Map::empty()
    } else {
        channel_map_of(s.drop_last()).insert(s.last().id as int, s.last().sender)
    }
}

spec fn has_channel_id(s: Seq<ChannelEntry>, id: int) -> bool {
    exists|i: int| 0 <= i < s.len() && s[i].id == id
}

spec fn unique_channel_ids(s: Seq<ChannelEntry>) -> bool {
    forall|i: int, j: int| 0 <= i < j < s.len() ==> s[i].id != s[j].id
}

proof fn lemma_channel_map(s: Seq<ChannelEntry>)
    ensures
        forall|id: int| #[trigger] channel_map_of(s).dom().contains(id) <==> has_channel_id(s, id),
        unique_channel_ids(s) ==> forall|i: int|
            0 <= i < s.len() ==> channel_map_of(s)[(#[trigger] s[i]).id as int] == s[i].sender,
    decreases s.len(),
{
    if s.len() > 0 {
        let t = s.drop_last();
        lemma_channel_map(t);
        assert forall|id: int| #[trigger] channel_map_of(s).dom().contains(id) implies
            has_channel_id(s, id) by {
            if id == s.last().id {
                assert(s[s.len() - 1].id == id);
            } else {
                assert(channel_map_of(t).dom().contains(id));
                assert(has_channel_id(t, id));
                let i = choose|i: int| 0 <= i < t.len() && t[i].id == id;
                assert(s[i].id == id);
            }
        }
        assert forall|id: int| has_channel_id(s, id) implies #[trigger] channel_map_of(
            s,
        ).dom().contains(id) by {
            let i = choose|i: int| 0 <= i < s.len() && s[i].id == id;
            if i < s.len() - 1 {
                assert(t[i].id == id);
                assert(has_channel_id(t, id));
                assert(channel_map_of(t).dom().contains(id));
            } else {
                assert(id == s.last().id);
            }
        }
        if unique_channel_ids(s) {
            assert forall|i: int|
                0 <= i < s.len() implies channel_map_of(s)[(#[trigger] s[i]).id as int] == s[
                i].sender by {
                if i < s.len() - 1 {
                    assert(t[i] == s[i]);
                    assert(s[i].id != s.last().id);
                }
            }
        }
    }
}

/// The map from node id to that node's outgoing command channel, owned by
/// the dispatcher. A channel's lifetime is tied to the node's presence in
/// the current topology: it is dropped when the node crashes or the
/// topology is torn down, never merely because an edge was removed.
pub struct ChannelMap {
    entries: Vec<ChannelEntry>,
}

impl View for ChannelMap {
    type V = Map<int, crossbeam::channel::Sender<Command>>;

    closed spec fn view(&self) -> Map<int, crossbeam::channel::Sender<Command>> {
        channel_map_of(self.entries@)
    }
}

impl ChannelMap {
    #[verifier::type_invariant]
    spec fn inv(self) -> bool {
        unique_channel_ids(self.entries@)
    }

    /// A map with no channels.
    pub fn new() -> (r: ChannelMap)
        ensures
            r@ == Map::<int, crossbeam::channel::Sender<Command>>::empty(),
    {
        ChannelMap { entries: Vec::new() }
    }

    /// Whether a channel for `id` is present.
    pub fn contains(&self, id: u8) -> (found: bool)
        ensures
            found == self@.dom().contains(id as int),
    {
        proof {
            use_type_invariant(self);
            lemma_channel_map(self.entries@);
        }
        let n = self.entries.len();
        let mut i: usize = 0;
        while i < n
            invariant
                n == self.entries@.len(),
                0 <= i <= n,
                forall|j: int| 0 <= j < i ==> (#[trigger] self.entries@[j]).id != id,
                forall|id2: int|
                    #[trigger] self@.dom().contains(id2) <==> has_channel_id(self.entries@, id2),
            decreases n - i,
        {
            if self.entries[i].id == id {
                return true;
            }
            i = i + 1;
        }
        proof {
            assert(!has_channel_id(self.entries@, id as int));
        }
        false
    }

    /// Store the channel for a node that has none yet.
    pub fn insert(&mut self, id: u8, sender: crossbeam::channel::Sender<Command>)
        requires
            !old(self)@.dom().contains(id as int),
        ensures
            final(self)@ == old(self)@.insert(id as int, sender),
    {
        proof {
            use_type_invariant(&*self);
            lemma_channel_map(self.entries@);
        }
        let ghost pre = self.entries@;
        let mut entries: Vec<ChannelEntry> = Vec::new();
        std::mem::swap(&mut entries, &mut self.entries);
        entries.push(ChannelEntry { id, sender });
        self.entries = entries;
        proof {
            assert(self.entries@.drop_last() == pre);
        }
    }

    /// Borrow the channel for `id`, if one is present.
    pub fn get(&self, id: u8) -> (r: Option<&crossbeam::channel::Sender<Command>>)
        ensures
            r is Some <==> self@.dom().contains(id as int),
            r matches Some(sender) ==> *sender == self@[id as int],
    {
        proof {
            use_type_invariant(self);
            lemma_channel_map(self.entries@);
        }
        let n = self.entries.len();
        let mut i: usize = 0;
        while i < n
            invariant
                n == self.entries@.len(),
                0 <= i <= n,
                forall|j: int| 0 <= j < i ==> (#[trigger] self.entries@[j]).id != id,
                forall|id2: int|
                    #[trigger] self@.dom().contains(id2) <==> has_channel_id(self.entries@, id2),
                unique_channel_ids(self.entries@),
                forall|j: int|
                    0 <= j < n ==> self@[(#[trigger] self.entries@[j]).id as int]
                        == self.entries@[j].sender,
            decreases n - i,
        {
            if self.entries[i].id == id {
                return Some(&self.entries[i].sender);
            }
            i = i + 1;
        }
        proof {
            assert(!has_channel_id(self.entries@, id as int));
        }
        None
    }

    /// Drop the channel for `id`, if one is present.
    pub fn remove(&mut self, id: u8)
        ensures
            final(self)@ == old(self)@.remove(id as int),
    {
        proof {
            use_type_invariant(&*self);
            lemma_channel_map(self.entries@);
        }
        let n = self.entries.len();
        let mut i: usize = 0;
        let mut found: bool = false;
        while i < n
            invariant_except_break
                !found,
            invariant
                n == self.entries@.len(),
                0 <= i <= n,
                self.entries@ == old(self).entries@,
                forall|j: int| 0 <= j < i ==> (#[trigger] self.entries@[j]).id != id,
            ensures
                n == self.entries@.len(),
                self.entries@ == old(self).entries@,
                0 <= i <= n,
                forall|j: int| 0 <= j < i ==> (#[trigger] self.entries@[j]).id != id,
                found ==> i < n && self.entries@[i as int].id == id,
                !found ==> i == n,
            decreases n - i,
        {
            if self.entries[i].id == id {
                found = true;
                break;
            }
            i = i + 1;
        }
        if found {
            let ghost pre = self.entries@;
            let mut entries: Vec<ChannelEntry> = Vec::new();
            std::mem::swap(&mut entries, &mut self.entries);
            entries.remove(i);
            self.entries = entries;
            proof {
                let post = self.entries@;
                assert(forall|j: int| 0 <= j < i ==> post[j] == pre[j]);
                assert(forall|j: int| i <= j < pre.len() - 1 ==> post[j] == pre[j + 1]);
                assert(unique_channel_ids(post)) by {
                    assert forall|j1: int, j2: int|
                        0 <= j1 < j2 < post.len() implies post[j1].id != post[j2].id by {
                        if j1 < i && j2 >= i {
                            assert(post[j1] == pre[j1] && post[j2] == pre[j2 + 1]);
                        } else if j1 >= i {
                            assert(post[j1] == pre[j1 + 1] && post[j2] == pre[j2 + 1]);
                        }
                    }
                }
                lemma_channel_map(post);
                assert(self@ =~= old(self)@.remove(id as int)) by {
                    assert forall|id2: int| #[trigger] channel_map_of(post).dom().contains(id2)
                        implies old(self)@.remove(id as int).dom().contains(id2) by {
                        let j = choose|j: int| 0 <= j < post.len() && post[j].id == id2;
                        if j < i {
                            assert(pre[j].id == id2);
                        } else {
                            assert(pre[j + 1].id == id2);
                            assert(j + 1 != i);
                        }
                        assert(id2 != id);
                        assert(has_channel_id(pre, id2));
                    }
                    assert forall|id2: int| old(self)@.remove(id as int).dom().contains(id2)
                        implies #[trigger] channel_map_of(post).dom().contains(id2) by {
                        let j = choose|j: int| 0 <= j < pre.len() && pre[j].id == id2;
                        assert(j != i);
                        if j < i {
                            assert(post[j].id == id2);
                        } else {
                            assert(post[j - 1].id == id2);
                        }
                        assert(has_channel_id(post, id2));
                    }
                    assert forall|id2: int|
                        channel_map_of(post).dom().contains(id2) implies #[trigger] channel_map_of(
                        post,
                    )[id2] == old(self)@[id2] by {
                        let j = choose|j: int| 0 <= j < post.len() && post[j].id == id2;
                        assert(channel_map_of(post)[id2] == post[j].sender);
                        if j < i {
                            assert(pre[j].id == id2 && pre[j].sender == post[j].sender);
                            assert(old(self)@[id2] == pre[j].sender);
                        } else {
                            assert(pre[j + 1].id == id2 && pre[j + 1].sender == post[j].sender);
                            assert(old(self)@[id2] == pre[j + 1].sender);
                        }
                    }
                }
            }
        } else {
            proof {
                assert(!has_channel_id(self.entries@, id as int));
                assert(self@ =~= old(self)@.remove(id as int));
            }
        }
    }
}

/// What the dispatcher may report for a send to `target` given the current
/// channel map: without a map, that no map is loaded; with a map that has
/// no channel for the target, that the id is unknown; otherwise success,
/// or failure because the node's receiving end is gone — which of the two
/// depends on the live network alone.
pub open spec fn valid_send_result(
    senders: Option<ChannelMap>,
    target: u8,
    r: Result<(), SendError>,
) -> bool {
    match senders {
        Option::None => r == Err::<(), SendError>(SendError::NoChannelMap),
        Option::Some(map) => {
            if map@.dom().contains(target as int) {
                r == Ok::<(), SendError>(()) || r == Err::<(), SendError>(SendError::ChannelClosed)
            } else {
                r == Err::<(), SendError>(SendError::NoChannelForId)
            }
        },
    }
}

/// Hand one command to one node, best-effort: look the node's channel up
/// and attempt the send, reporting — never escalating — any failure.
pub fn send_drone_command(senders: &Option<ChannelMap>, id: u8, command: Command) -> (r: Result<
    (),
    SendError,
>)
    ensures
        valid_send_result(*senders, id, r),
{
    match senders {
        Option::None => Err(SendError::NoChannelMap),
        Option::Some(map) => match map.get(id) {
            Option::None => Err(SendError::NoChannelForId),
            Option::Some(sender) => {
                if channel_send(sender, command) {
                    Ok(())
                } else {
                    Err(SendError::ChannelClosed)
                }
            },
        },
    }
}

/// The ids of the nodes whose packet (data) channel the process currently
/// holds. The handles themselves live outside the library, which only
/// decides with their presence: an add-edge intent skips the command for a
/// peer whose handle is missing, and a crash or teardown drops the entry.
pub struct ChannelSet {
    ids: Vec<u8>,
}

impl View for ChannelSet {
    type V = Set<u8>;

    closed spec fn view(&self) -> Set<u8> {
        self.ids@.to_set()
    }
}

impl ChannelSet {
    #[verifier::type_invariant]
    spec fn inv(self) -> bool {
        forall|i: int, j: int| 0 <= i < j < self.ids@.len() ==> self.ids@[i] != self.ids@[j]
    }

    /// A set with no ids.
    pub fn new() -> (r: ChannelSet)
        ensures
            r@ == Set::<u8>::empty(),
    {
        let r = ChannelSet { ids: Vec::new() };
        proof {
            assert(r.ids@.to_set() =~= Set::<u8>::empty());
        }
        r
    }

    /// Whether a data channel for `id` is held.
    pub fn contains(&self, id: u8) -> (found: bool)
        ensures
            found == self@.contains(id),
    {
        let n = self.ids.len();
        let mut i: usize = 0;
        while i < n
            invariant
                n == self.ids@.len(),
                0 <= i <= n,
                forall|j: int| 0 <= j < i ==> self.ids@[j] != id,
            decreases n - i,
        {
            if self.ids[i] == id {
                return true;
            }
            i = i + 1;
        }
        proof {
            assert(!self.ids@.contains(id));
        }
        false
    }

    /// Record that a channel for a node without one is now held.
    pub fn insert(&mut self, id: u8)
        requires
            !old(self)@.contains(id),
        ensures
            final(self)@ == old(self)@.insert(id),
    {
        proof {
            use_type_invariant(&*self);
        }
        let ghost pre = self.ids@;
        let mut ids: Vec<u8> = Vec::new();
        std::mem::swap(&mut ids, &mut self.ids);
        ids.push(id);
        self.ids = ids;
        proof {
            assert(forall|j: int| 0 <= j < pre.len() ==> self.ids@[j] == pre[j]);
            assert(!pre.contains(id));
            assert(self.ids@.to_set() =~= pre.to_set().insert(id)) by {
                assert forall|y: u8| #[trigger] self.ids@.contains(y) implies pre.contains(y) || y
                    == id by {
                    let j = choose|j: int| 0 <= j < self.ids@.len() && self.ids@[j] == y;
                    if j < pre.len() {
                        assert(pre[j] == y);
                    }
                }
                assert(self.ids@.contains(id)) by {
                    assert(self.ids@[self.ids@.len() - 1] == id);
                }
                assert(forall|y: u8| pre.contains(y) ==> #[trigger] self.ids@.contains(y)) by {
                    assert forall|y: u8| pre.contains(y) implies #[trigger] self.ids@.contains(
                        y,
                    ) by {
                        let j = choose|j: int| 0 <= j < pre.len() && pre[j] == y;
                        assert(self.ids@[j] == y);
                    }
                }
            }
        }
    }

    /// Drop the channel entry for `id`, if one is held.
    pub fn remove(&mut self, id: u8)
        ensures
            final(self)@ == old(self)@.remove(id),
    {
        proof {
            use_type_invariant(&*self);
        }
        let n = self.ids.len();
        let mut i: usize = 0;
        let mut found: bool = false;
        while i < n
            invariant_except_break
                !found,
            invariant
                n == self.ids@.len(),
                0 <= i <= n,
                self.ids@ == old(self).ids@,
                forall|j: int| 0 <= j < i ==> self.ids@[j] != id,
            ensures
                n == self.ids@.len(),
                self.ids@ == old(self).ids@,
                0 <= i <= n,
                forall|j: int| 0 <= j < i ==> self.ids@[j] != id,
                found ==> i < n && self.ids@[i as int] == id,
                !found ==> i == n,
            decreases n - i,
        {
            if self.ids[i] == id {
                found = true;
                break;
            }
            i = i + 1;
        }
        if found {
            let ghost pre = self.ids@;
            let mut ids: Vec<u8> = Vec::new();
            std::mem::swap(&mut ids, &mut self.ids);
            ids.remove(i);
            self.ids = ids;
            proof {
                let post = self.ids@;
                assert(forall|j: int| 0 <= j < i ==> post[j] == pre[j]);
                assert(forall|j: int| i <= j < pre.len() - 1 ==> post[j] == pre[j + 1]);
                assert forall|j1: int, j2: int|
                    0 <= j1 < j2 < post.len() implies post[j1] != post[j2] by {
                    if j1 < i && j2 >= i {
                        assert(post[j1] == pre[j1] && post[j2] == pre[j2 + 1]);
                    } else if j1 >= i {
                        assert(post[j1] == pre[j1 + 1] && post[j2] == pre[j2 + 1]);
                    }
                }
                assert(post.to_set() =~= pre.to_set().remove(id)) by {
                    assert forall|y: u8| #[trigger] post.contains(y) implies pre.contains(y) && y
                        != id by {
                        let j = choose|j: int| 0 <= j < post.len() && post[j] == y;
                        if j < i {
                            assert(pre[j] == y);
                        } else {
                            assert(pre[j + 1] == y);
                            assert(j + 1 != i);
                        }
                    }
                    assert forall|y: u8| pre.contains(y) && y != id implies #[trigger] post.contains(
                        y,
                    ) by {
                        let j = choose|j: int| 0 <= j < pre.len() && pre[j] == y;
                        assert(j != i);
                        if j < i {
                            assert(post[j] == y);
                        } else {
                            assert(post[j - 1] == y);
                        }
                    }
                }
            }
        } else {
            proof {
                assert(!self.ids@.contains(id));
                assert(self.ids@.to_set() =~= old(self).ids@.to_set().remove(id));
            }
        }
    }
}

} // verus!
