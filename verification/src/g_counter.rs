//! The grow-only counter workload.
//!
//! The counter is a map from node id to that node's contribution. A node
//! changes its own entry alone; the entries of the others reach it by gossip
//! and are merged entry by entry, the higher version winning. A read sums
//! the contributions.

use crate::error::NodeError;
use crate::event::{settle, settled, Action, Event};
use crate::topologies::{neighbor_map_view, NeighborMap, Topology};
use vstd::hash_map::StringHashMap;
use vstd::prelude::*;

verus! {

/// One node's contribution to the counter: the sum of the deltas the node
/// has accepted (`value`), stamped with the message id the node had reached
/// when it accepted the last of them (`msg_id`, the entry's version).
#[derive(Debug, Clone, Copy, PartialEq, Eq, Structural)]
pub struct CounterValue {
    pub msg_id: u32,
    pub value: i32,
}

/// An entry of a counter: the owner's id and its contribution.
#[derive(Debug)]
pub struct Entry {
    pub node_id: String,
    pub counter: CounterValue,
}

/// A counter in its mathematical form.
pub type CounterMap = Map<Seq<char>, CounterValue>;

/// The map that a list of entries stands for. Where an id occurs twice, the
/// later entry counts.
pub open spec fn entries_map(entries: Seq<Entry>) -> CounterMap
    decreases entries.len(),
{
    if entries.len() == 0 {
        Map::empty()
    } else {
        entries_map(entries.drop_last()).insert(entries.last().node_id@, entries.last().counter)
    }
}

/// The ids of a list of entries, in order.
pub open spec fn entry_keys(entries: Seq<Entry>) -> Seq<Seq<char>> {
    entries.map_values(|e: Entry| e.node_id@)
}

/// The sum of all contributions of a finite counter.
pub open spec fn counter_sum(m: CounterMap) -> int
    decreases m.dom().len(),
    when m.dom().finite()
{
    if m.dom().is_empty() {
        0
    } else {
        let id = m.dom().choose();
        m[id].value + counter_sum(m.remove(id))
    }
}

/// The counter after its owner `owner` has accepted `delta`, stamped with
/// `delta.msg_id`: a new entry where the owner had none, else the old value
/// plus the delta under the higher of the two versions.
pub open spec fn counter_add(m: CounterMap, owner: Seq<char>, delta: CounterValue) -> CounterMap {
    if m.contains_key(owner) {
        m.insert(
            owner,
            CounterValue {
                msg_id: if m[owner].msg_id < delta.msg_id {
                    delta.msg_id
                } else {
                    m[owner].msg_id
                },
                value: (m[owner].value + delta.value) as i32,
            },
        )
    } else {
        m.insert(owner, delta)
    }
}

/// Whether `counter_add` stays within the range of the value.
pub open spec fn add_fits(m: CounterMap, owner: Seq<char>, delta: CounterValue) -> bool {
    m.contains_key(owner) ==> i32::MIN <= m[owner].value + delta.value <= i32::MAX
}

/// The counter after merging a replica's entry for `owner`: the incoming
/// entry is taken where the counter has none for `owner` or an older one.
pub open spec fn counter_merge(m: CounterMap, owner: Seq<char>, incoming: CounterValue)
    -> CounterMap {
    if m.contains_key(owner) && m[owner].msg_id >= incoming.msg_id {
        m
    } else {
        m.insert(owner, incoming)
    }
}

/// Removing any entry of a finite counter takes exactly its value from the
/// sum.
pub proof fn lemma_sum_remove(m: CounterMap, id: Seq<char>)
    requires
        m.dom().finite(),
        m.contains_key(id),
    ensures
        counter_sum(m) == m[id].value + counter_sum(m.remove(id)),
    decreases m.dom().len(),
{
    let chosen = m.dom().choose();
    if chosen != id {
        lemma_sum_remove(m.remove(chosen), id);
        lemma_sum_remove(m.remove(id), chosen);
        assert(m.remove(chosen).remove(id) =~= m.remove(id).remove(chosen));
    }
}

/// Setting the entry of `id` changes the sum by the difference of the values.
pub proof fn lemma_sum_insert(m: CounterMap, id: Seq<char>, c: CounterValue)
    requires
        m.dom().finite(),
    ensures
        counter_sum(m.insert(id, c)) == counter_sum(m) + c.value - (if m.contains_key(id) {
            m[id].value as int
        } else {
            0
        }),
{
    let after = m.insert(id, c);
    lemma_sum_remove(after, id);
    if m.contains_key(id) {
        lemma_sum_remove(m, id);
        assert(after.remove(id) =~= m.remove(id));
    } else {
        assert(after.remove(id) =~= m);
    }
}

/// What a list of entries with distinct ids stands for, entry by entry.
proof fn lemma_entries_map(entries: Seq<Entry>)
    ensures
        entries_map(entries).dom().finite(),
        forall|id: Seq<char>| #[trigger]
            entries_map(entries).contains_key(id) <==> entry_keys(entries).contains(id),
        entry_keys(entries).no_duplicates() ==> forall|i: int|
            0 <= i < entries.len() ==> entries_map(entries)[#[trigger] entries[i].node_id@]
                == entries[i].counter,
    decreases entries.len(),
{
    let keys = entry_keys(entries);
    if entries.len() > 0 {
        let rest = entries.drop_last();
        lemma_entries_map(rest);
        assert(entry_keys(rest) =~= keys.drop_last());
        assert forall|id: Seq<char>| #[trigger]
            entries_map(entries).contains_key(id) <==> keys.contains(id) by {
            if keys.contains(id) {
                let i = choose|i: int| 0 <= i < keys.len() && keys[i] == id;
                if i < keys.len() - 1 {
                    assert(keys.drop_last()[i] == id);
                }
            }
            if keys.drop_last().contains(id) {
                let i = choose|i: int| 0 <= i < keys.drop_last().len() && keys.drop_last()[i] == id;
                assert(keys[i] == id);
            }
            if id == keys.last() {
                assert(keys[keys.len() - 1] == id);
            }
        }
        if keys.no_duplicates() {
            assert forall|i: int| 0 <= i < entries.len() implies entries_map(
                entries,
            )[#[trigger] entries[i].node_id@] == entries[i].counter by {
                if i < entries.len() - 1 {
                    assert(keys[i] != keys[entries.len() - 1]);
                    assert(rest[i] == entries[i]);
                }
            }
        }
    }
}

/// Where the ids are distinct, every entry brings a node that the entries
/// before it do not hold.
proof fn lemma_next_entry(entries: Seq<Entry>, i: int)
    requires
        entry_keys(entries).no_duplicates(),
        0 <= i < entries.len(),
    ensures
        entries_map(entries.take(i)).dom().finite(),
        !entries_map(entries.take(i)).contains_key(entries[i].node_id@),
        entries_map(entries.take(i + 1)) == entries_map(entries.take(i)).insert(
            entries[i].node_id@,
            entries[i].counter,
        ),
{
    let prefix = entries.take(i);
    assert(entries.take(i + 1).drop_last() =~= prefix);
    lemma_entries_map(prefix);
    if entry_keys(prefix).contains(entries[i].node_id@) {
        let j = choose|j: int| 0 <= j < prefix.len() && entry_keys(prefix)[j] == entries[i].node_id@;
        assert(entry_keys(entries)[j] == entry_keys(entries)[i]);
    }
}

/// A grow-only counter: for each node that is known to have counted, its
/// contribution.
#[derive(Debug)]
pub struct Counter {
    data: Vec<Entry>,
}

impl View for Counter {
    type V = CounterMap;

    closed spec fn view(&self) -> CounterMap {
        entries_map(self.data@)
    }
}

impl Default for Counter {
    fn default() -> (counter: Counter)
        ensures
            counter.wf(),
            counter@ == CounterMap::empty(),
    {
        Counter::new()
    }
}

impl Clone for Counter {
    fn clone(&self) -> (copy: Counter)
        ensures
            copy@ == self@,
            self.wf() ==> copy.wf(),
    {
        let mut data: Vec<Entry> = Vec::new();
        let mut i: usize = 0;
        while i < self.data.len()
            invariant
                i <= self.data.len(),
                data.len() == i,
                forall|j: int|
                    0 <= j < i ==> data[j].node_id@ == self.data[j].node_id@ && data[j].counter
                        == self.data[j].counter,
            decreases self.data.len() - i,
        {
            data.push(Entry { node_id: self.data[i].node_id.clone(), counter: self.data[i].counter });
            i += 1;
        }
        proof {
            lemma_same_entries(self.data@, data@);
        }
        Counter { data }
    }
}

/// Lists that agree entry by entry, ids taken by their text, stand for the
/// same counter.
proof fn lemma_same_entries(a: Seq<Entry>, b: Seq<Entry>)
    requires
        a.len() == b.len(),
        forall|j: int|
            0 <= j < a.len() ==> a[j].node_id@ == b[j].node_id@ && a[j].counter == b[j].counter,
    ensures
        entries_map(a) == entries_map(b),
        entry_keys(a) == entry_keys(b),
    decreases a.len(),
{
    if a.len() > 0 {
        lemma_same_entries(a.drop_last(), b.drop_last());
    }
}

impl Counter {
    /// The invariant of the representation: no node has two entries.
    pub closed spec fn wf(&self) -> bool {
        entry_keys(self.data@).no_duplicates()
    }

    /// A counter holds finitely many entries.
    pub proof fn lemma_finite(&self)
        ensures
            self@.dom().finite(),
    {
        lemma_entries_map(self.data@);
    }

    /// The counter in which nobody has counted yet.
    pub fn new() -> (counter: Counter)
        ensures
            counter.wf(),
            counter@ == CounterMap::empty(),
    {
        Counter { data: Vec::new() }
    }

    /// Builds a counter from a list of entries. Where a node has several
    /// entries, the last one counts.
    pub fn from_entries(entries: Vec<Entry>) -> (counter: Counter)
        ensures
            counter.wf(),
            counter@ == entries_map(entries@),
    {
        let mut counter = Counter::new();
        let n = entries.len();
        let mut i: usize = 0;
        while i < n
            invariant
                i <= n,
                n == entries.len(),
                counter.wf(),
                counter@ == entries_map(entries@.take(i as int)),
            decreases n - i,
        {
            proof {
                assert(entries@.take(i + 1).drop_last() =~= entries@.take(i as int));
            }
            counter.put(entries[i].node_id.clone(), entries[i].counter);
            i += 1;
        }
        assert(entries@.take(n as int) =~= entries@);
        counter
    }

    /// The entries of the counter, one for each node that has one.
    pub fn entries(&self) -> (entries: Vec<Entry>)
        requires
            self.wf(),
        ensures
            entries_map(entries@) == self@,
            entry_keys(entries@).no_duplicates(),
    {
        let copy = self.clone();
        copy.data
    }

    fn position(&self, node_id: &String) -> (found: Option<usize>)
        ensures
            match found {
                Some(i) => i < self.data.len() && self.data[i as int].node_id@ == node_id@,
                None => !entry_keys(self.data@).contains(node_id@),
            },
    {
        let mut i: usize = 0;
        while i < self.data.len()
            invariant
                i <= self.data.len(),
                forall|j: int| 0 <= j < i ==> self.data[j].node_id@ != node_id@,
            decreases self.data.len() - i,
        {
            if self.data[i].node_id == *node_id {
                return Some(i);
            }
            i += 1;
        }
        None
    }

    /// Sets the entry of `node_id` to `value`.
    fn put(&mut self, node_id: String, value: CounterValue)
        requires
            old(self).wf(),
        ensures
            final(self).wf(),
            final(self)@ == old(self)@.insert(node_id@, value),
    {
        let ghost before = self.data@;
        match self.position(&node_id) {
            Some(i) => {
                self.data[i].counter = value;
                proof {
                    assert(entry_keys(self.data@) =~= entry_keys(before));
                    lemma_entries_map(before);
                    lemma_entries_map(self.data@);
                    let target = entries_map(before).insert(node_id@, value);
                    assert forall|id: Seq<char>| #[trigger]
                        target.contains_key(id) implies self@[id] == target[id] by {
                        if id == node_id@ {
                            assert(self.data@[i as int].node_id@ == id);
                        } else {
                            let j = choose|j: int|
                                0 <= j < before.len() && entry_keys(before)[j] == id;
                            assert(before[j].node_id@ == id);
                            assert(self.data@[j].node_id@ == id);
                        }
                    }
                    assert forall|id: Seq<char>|
                        target.dom().contains(id) == self@.dom().contains(id) by {
                        assert(entry_keys(before)[i as int] == node_id@);
                        assert(entries_map(before).contains_key(id) <==> entry_keys(
                            before,
                        ).contains(id));
                        assert(entries_map(self.data@).contains_key(id) <==> entry_keys(
                            self.data@,
                        ).contains(id));
                    }
                    assert(self@ =~= entries_map(before).insert(node_id@, value));
                }
            },
            None => {
                self.data.push(Entry { node_id, counter: value });
                proof {
                    assert(self.data@.drop_last() =~= before);
                    assert(entry_keys(self.data@) =~= entry_keys(before).push(node_id@));
                }
            },
        }
    }

    /// The entry of `node_id`, if the node has one.
    pub fn get(&self, node_id: &str) -> (found: Option<CounterValue>)
        requires
            self.wf(),
        ensures
            found == (if self@.contains_key(node_id@) {
                Some(self@[node_id@])
            } else {
                None
            }),
    {
        let key = node_id.to_owned();
        proof {
            lemma_entries_map(self.data@);
        }
        match self.position(&key) {
            Some(i) => {
                assert(entry_keys(self.data@)[i as int] == key@);
                Some(self.data[i].counter)
            },
            None => None,
        }
    }

    /// Adds a value to the node counter: `new_counter.value` is the delta
    /// and `new_counter.msg_id` the version it is stamped with.
    pub fn add(&mut self, node_id: &str, new_counter: CounterValue)
        requires
            old(self).wf(),
            add_fits(old(self)@, node_id@, new_counter),
        ensures
            final(self).wf(),
            final(self)@ == counter_add(old(self)@, node_id@, new_counter),
    {
        let current = self.get(node_id);
        let next = match current {
            Some(counter) => CounterValue {
                msg_id: if counter.msg_id < new_counter.msg_id {
                    new_counter.msg_id
                } else {
                    counter.msg_id
                },
                value: counter.value + new_counter.value,
            },
            None => new_counter,
        };
        self.put(node_id.to_owned(), next);
    }

    /// Merges the entry that another node holds for `node_id`, taking the
    /// latest of the two: the incoming entry replaces the local one where
    /// its version is higher, and is inserted where there is none.
    pub fn merge(&mut self, node_id: &str, new_counter: CounterValue)
        requires
            old(self).wf(),
        ensures
            final(self).wf(),
            final(self)@ == counter_merge(old(self)@, node_id@, new_counter),
    {
        let current = self.get(node_id);
        let take = match current {
            Some(counter) => counter.msg_id < new_counter.msg_id,
            None => true,
        };
        if take {
            self.put(node_id.to_owned(), new_counter);
        }
    }

    /// Merges every entry of `other` but that of `own`: a node takes its own
    /// entry from nobody.
    pub fn merge_from(&mut self, other: &Counter, own: &str)
        requires
            old(self).wf(),
            other.wf(),
        ensures
            final(self).wf(),
            final(self)@ == merge_all(old(self)@, other@, own@),
    {
        let own_id = own.to_owned();
        let n = other.data.len();
        let mut i: usize = 0;
        while i < n
            invariant
                i <= n,
                n == other.data.len(),
                other.wf(),
                self.wf(),
                own_id@ == own@,
                self@ == merge_all(old(self)@, entries_map(other.data@.take(i as int)), own@),
            decreases n - i,
        {
            let entry = &other.data[i];
            proof {
                lemma_next_entry(other.data@, i as int);
            }
            if entry.node_id != own_id {
                self.merge(entry.node_id.as_str(), entry.counter);
            }
            i += 1;
        }
        assert(other.data@.take(n as int) =~= other.data@);
    }

    /// The sum of all contributions, or `None` where it does not fit the
    /// value's range.
    pub fn checked_sum(&self) -> (total: Option<i32>)
        requires
            self.wf(),
        ensures
            total == (if i32::MIN <= counter_sum(self@) <= i32::MAX {
                Some(counter_sum(self@) as i32)
            } else {
                None
            }),
    {
        let mut total: i128 = 0;
        let mut i: usize = 0;
        let n = self.data.len();
        while i < n
            invariant
                i <= n,
                n == self.data.len(),
                self.wf(),
                total == counter_sum(entries_map(self.data@.take(i as int))),
                -0x8000_0000 * i <= total <= 0x8000_0000 * i,
            decreases n - i,
        {
            proof {
                lemma_next_entry(self.data@, i as int);
                lemma_sum_insert(
                    entries_map(self.data@.take(i as int)),
                    self.data[i as int].node_id@,
                    self.data[i as int].counter,
                );
            }
            total = total + self.data[i].counter.value as i128;
            i += 1;
        }
        assert(self.data@.take(n as int) =~= self.data@);
        if total < -0x8000_0000 || total > 0x7fff_ffff {
            None
        } else {
            Some(total as i32)
        }
    }

    /// Sums all the nodes' contributions, which gives the counter's value.
    pub fn sum(&self) -> (total: i32)
        requires
            self.wf(),
            i32::MIN <= counter_sum(self@) <= i32::MAX,
        ensures
            total == counter_sum(self@),
    {
        match self.checked_sum() {
            Some(total) => total,
            None => 0,
        }
    }
}

/// A message between a client or a node and a node.
#[derive(Debug)]
pub struct Message {
    pub src: String,
    pub dest: String,
    pub body: MessageBody,
}

/// The bodies of the counter workload, by their `type` on the wire.
#[derive(Debug)]
pub enum MessageBody {
    Init { msg_id: u32, node_id: String, node_ids: Vec<String> },
    InitOk { in_reply_to: u32 },
    Read { msg_id: u32 },
    ReadOk { value: i32, in_reply_to: u32 },
    /// The neighbor map that the network suggests, as its entries.
    Topology { msg_id: u32, topology: Vec<(String, Vec<String>)> },
    TopologyOk { in_reply_to: u32 },
    Gossip { msg_id: u32, counter: Counter },
    GossipOk { counter: Counter, in_reply_to: u32 },
    Add { msg_id: u32, delta: i32 },
    AddOk { in_reply_to: u32 },
}

/// A body in its mathematical form.
pub enum BodyView {
    Init { msg_id: u32, node_id: Seq<char>, node_ids: Seq<Seq<char>> },
    InitOk { in_reply_to: u32 },
    Read { msg_id: u32 },
    ReadOk { value: i32, in_reply_to: u32 },
    Topology { msg_id: u32, topology: Seq<(Seq<char>, Seq<Seq<char>>)> },
    TopologyOk { in_reply_to: u32 },
    Gossip { msg_id: u32, counter: CounterMap },
    GossipOk { counter: CounterMap, in_reply_to: u32 },
    Add { msg_id: u32, delta: i32 },
    AddOk { in_reply_to: u32 },
}

/// A message in its mathematical form.
pub struct MessageView {
    pub src: Seq<char>,
    pub dest: Seq<char>,
    pub body: BodyView,
}

impl BodyView {
    /// The request id of a body that carries one.
    pub open spec fn msg_id(self) -> Option<u32> {
        match self {
            BodyView::Init { msg_id, .. } => Some(msg_id),
            BodyView::Read { msg_id } => Some(msg_id),
            BodyView::Topology { msg_id, .. } => Some(msg_id),
            BodyView::Gossip { msg_id, .. } => Some(msg_id),
            BodyView::Add { msg_id, .. } => Some(msg_id),
            _ => None,
        }
    }

    /// The id of the request that a reply answers.
    pub open spec fn in_reply_to(self) -> Option<u32> {
        match self {
            BodyView::InitOk { in_reply_to } => Some(in_reply_to),
            BodyView::ReadOk { in_reply_to, .. } => Some(in_reply_to),
            BodyView::TopologyOk { in_reply_to } => Some(in_reply_to),
            BodyView::GossipOk { in_reply_to, .. } => Some(in_reply_to),
            BodyView::AddOk { in_reply_to } => Some(in_reply_to),
            _ => None,
        }
    }
}

impl View for MessageBody {
    type V = BodyView;

    open spec fn view(&self) -> BodyView {
        match self {
            MessageBody::Init { msg_id, node_id, node_ids } => BodyView::Init {
                msg_id: *msg_id,
                node_id: node_id@,
                node_ids: node_ids.deep_view(),
            },
            MessageBody::InitOk { in_reply_to } => BodyView::InitOk { in_reply_to: *in_reply_to },
            MessageBody::Read { msg_id } => BodyView::Read { msg_id: *msg_id },
            MessageBody::ReadOk { value, in_reply_to } => BodyView::ReadOk {
                value: *value,
                in_reply_to: *in_reply_to,
            },
            MessageBody::Topology { msg_id, topology } => BodyView::Topology {
                msg_id: *msg_id,
                topology: topology@.map_values(
                    |entry: (String, Vec<String>)| (entry.0@, entry.1.deep_view()),
                ),
            },
            MessageBody::TopologyOk { in_reply_to } => BodyView::TopologyOk {
                in_reply_to: *in_reply_to,
            },
            MessageBody::Gossip { msg_id, counter } => BodyView::Gossip {
                msg_id: *msg_id,
                counter: counter@,
            },
            MessageBody::GossipOk { counter, in_reply_to } => BodyView::GossipOk {
                counter: counter@,
                in_reply_to: *in_reply_to,
            },
            MessageBody::Add { msg_id, delta } => BodyView::Add { msg_id: *msg_id, delta: *delta },
            MessageBody::AddOk { in_reply_to } => BodyView::AddOk { in_reply_to: *in_reply_to },
        }
    }
}

impl MessageBody {
    /// Whether the counter that the body carries, if any, is well formed.
    pub open spec fn wf(&self) -> bool {
        match self {
            MessageBody::Gossip { counter, .. } => counter.wf(),
            MessageBody::GossipOk { counter, .. } => counter.wf(),
            _ => true,
        }
    }
}

impl View for Message {
    type V = MessageView;

    open spec fn view(&self) -> MessageView {
        MessageView { src: self.src@, dest: self.dest@, body: self.body@ }
    }
}

impl Message {
    /// Whether the message's body is well formed.
    pub open spec fn wf(&self) -> bool {
        self.body.wf()
    }
}

/// The mathematical form of a handler's verdict.
pub open spec fn verdict_view(verdict: Result<Option<Message>, NodeError>) -> Result<
    Option<MessageView>,
    NodeError,
> {
    match verdict {
        Ok(Some(reply)) => Ok(Some(reply@)),
        Ok(None) => Ok(None),
        Err(error) => Err(error),
    }
}

/// The replicated state of a counter node.
#[derive(Debug)]
pub struct NodeState {
    /// The last message id that the node has used, for a gossip or as the
    /// version of its own entry.
    pub last_message_id: u32,
    pub counter: Counter,
}

/// A node's state in its mathematical form.
pub struct StateView {
    pub last_message_id: u32,
    pub counter: CounterMap,
}

impl View for NodeState {
    type V = StateView;

    open spec fn view(&self) -> StateView {
        StateView { last_message_id: self.last_message_id, counter: self.counter@ }
    }
}

impl Default for NodeState {
    fn default() -> (state: NodeState)
        ensures
            state.wf(),
            state@ == (StateView { last_message_id: 0, counter: CounterMap::empty() }),
    {
        NodeState { last_message_id: 0, counter: Counter::new() }
    }
}

impl NodeState {
    /// Whether the state's counter is well formed.
    pub open spec fn wf(&self) -> bool {
        self.counter.wf()
    }
}

/// The counter after merging every entry of `incoming` but that of `own`,
/// which only its owner changes.
pub open spec fn merge_all(m: CounterMap, incoming: CounterMap, own: Seq<char>) -> CounterMap {
    Map::new(
        |id: Seq<char>| m.contains_key(id) || (id != own && incoming.contains_key(id)),
        |id: Seq<char>|
            if id != own && incoming.contains_key(id) {
                counter_merge(m, id, incoming[id])[id]
            } else {
                m[id]
            },
    )
}

/// The state in which a node with id `own` leaves a request, and its verdict
/// on it: the reply if it gives one, or the reason why it refuses.
pub open spec fn transition(own: Seq<char>, state: StateView, req: MessageView) -> (
    StateView,
    Result<Option<MessageView>, NodeError>,
) {
    let reply = |body: BodyView| Ok(Some(MessageView { src: own, dest: req.src, body }));
    match req.body {
        BodyView::Read { msg_id } => if i32::MIN <= counter_sum(state.counter) <= i32::MAX {
            (state, reply(BodyView::ReadOk {
                value: counter_sum(state.counter) as i32,
                in_reply_to: msg_id,
            }))
        } else {
            (state, Err(NodeError::Overflow))
        },
        BodyView::Add { msg_id, delta } => {
            let version = (state.last_message_id + 1) as u32;
            let stamped = CounterValue { msg_id: version, value: delta };
            if state.last_message_id < u32::MAX && add_fits(state.counter, own, stamped) {
                (
                    StateView {
                        last_message_id: version,
                        counter: counter_add(state.counter, own, stamped),
                    },
                    reply(BodyView::AddOk { in_reply_to: msg_id }),
                )
            } else {
                (state, Err(NodeError::Overflow))
            }
        },
        BodyView::Gossip { msg_id, counter } => {
            let merged = merge_all(state.counter, counter, own);
            (
                StateView { last_message_id: state.last_message_id, counter: merged },
                reply(BodyView::GossipOk { counter: merged, in_reply_to: msg_id }),
            )
        },
        BodyView::GossipOk { counter, .. } => (
            StateView {
                last_message_id: state.last_message_id,
                counter: merge_all(state.counter, counter, own),
            },
            Ok(None),
        ),
        BodyView::Topology { msg_id, .. } => (
            state,
            reply(BodyView::TopologyOk { in_reply_to: msg_id }),
        ),
        BodyView::Init { .. } => (state, Err(NodeError::InitRepeated)),
        _ => (state, Err(NodeError::Unrecognized)),
    }
}

/// The gossips of one tick: one for each neighbor, in the neighbors' order,
/// each with the next message id after `last` and the whole counter.
pub open spec fn gossip_round(
    own: Seq<char>,
    neighbors: Seq<Seq<char>>,
    last: u32,
    counter: CounterMap,
) -> Seq<MessageView> {
    Seq::new(
        neighbors.len(),
        |i: int|
            MessageView {
                src: own,
                dest: neighbors[i],
                body: BodyView::Gossip { msg_id: (last + 1 + i) as u32, counter },
            },
    )
}

/// One tick of the gossip timer on the state of the node `own` with the
/// neighbors `neighbors`: the state after it and the gossips to send, or the
/// reason why there are none.
pub open spec fn tick(own: Seq<char>, neighbors: Seq<Seq<char>>, state: StateView) -> (
    StateView,
    Result<Seq<MessageView>, NodeError>,
) {
    if state.last_message_id + neighbors.len() > u32::MAX {
        (state, Err(NodeError::Overflow))
    } else {
        (
            StateView {
                last_message_id: (state.last_message_id + neighbors.len()) as u32,
                counter: state.counter,
            },
            Ok(gossip_round(own, neighbors, state.last_message_id, state.counter)),
        )
    }
}

/// The mathematical form of a list of messages.
pub open spec fn messages_view(messages: Seq<Message>) -> Seq<MessageView> {
    messages.map_values(|m: Message| m@)
}

/// The mathematical form of a tick's result.
pub open spec fn round_view(round: Result<Vec<Message>, NodeError>) -> Result<
    Seq<MessageView>,
    NodeError,
> {
    match round {
        Ok(messages) => Ok(messages_view(messages@)),
        Err(error) => Err(error),
    }
}

/// A merge leaves the latest of the two entries: the version of the entry
/// never goes back, it is no older than the incoming one, and merging the
/// same entry again changes nothing.
pub proof fn lemma_merge_keeps_latest(m: CounterMap, owner: Seq<char>, incoming: CounterValue)
    ensures
        counter_merge(m, owner, incoming).contains_key(owner),
        counter_merge(m, owner, incoming)[owner].msg_id >= incoming.msg_id,
        m.contains_key(owner) ==> counter_merge(m, owner, incoming)[owner].msg_id
            >= m[owner].msg_id,
        counter_merge(counter_merge(m, owner, incoming), owner, incoming) == counter_merge(
            m,
            owner,
            incoming,
        ),
{
    let once = counter_merge(m, owner, incoming);
}

/// Entries of different versions may be merged in any order.
pub proof fn lemma_merge_commutes(
    m: CounterMap,
    owner: Seq<char>,
    first: CounterValue,
    second: CounterValue,
)
    requires
        first.msg_id != second.msg_id,
    ensures
        counter_merge(counter_merge(m, owner, first), owner, second) == counter_merge(
            counter_merge(m, owner, second),
            owner,
            first,
        ),
{
    assert(counter_merge(counter_merge(m, owner, first), owner, second) =~= counter_merge(
        counter_merge(m, owner, second),
        owner,
        first,
    ));
}

/// Taking in the same counter twice leaves what taking it in once leaves.
pub proof fn lemma_merge_all_idempotent(m: CounterMap, incoming: CounterMap, own: Seq<char>)
    ensures
        merge_all(merge_all(m, incoming, own), incoming, own) == merge_all(m, incoming, own),
{
}

/// Whether two counters agree wherever they hold the same version of an
/// entry.
pub open spec fn consistent(a: CounterMap, b: CounterMap) -> bool {
    forall|id: Seq<char>|
        a.contains_key(id) && #[trigger] b.contains_key(id) && a[id].msg_id == b[id].msg_id
            ==> a[id] == b[id]
}

/// Whether the counter `own` of the node `id` holds that node's entry in a
/// version no older than the one in `other`.
pub open spec fn owner_is_ahead(own: CounterMap, other: CounterMap, id: Seq<char>) -> bool {
    other.contains_key(id) ==> own.contains_key(id) && other[id].msg_id <= own[id].msg_id
}

/// Two nodes converge: when `first` gossips its counter to `second` and
/// takes the answer in, both hold the same counter, which has the later
/// version of every entry that either held. This asks of the two counters
/// what the discipline of the counter gives: copies of one version agree,
/// and nobody is ahead of an owner on the owner's entry.
pub proof fn lemma_pair_converges(
    first: Seq<char>,
    second: Seq<char>,
    sending: CounterMap,
    receiving: CounterMap,
)
    requires
        first != second,
        consistent(sending, receiving),
        owner_is_ahead(sending, receiving, first),
        owner_is_ahead(receiving, sending, second),
    ensures
        ({
            let received = merge_all(receiving, sending, second);
            let answered = merge_all(sending, received, first);
            &&& answered == received
            &&& forall|id: Seq<char>|
                received.contains_key(id) <==> sending.contains_key(id) || receiving.contains_key(
                    id,
                )
            &&& forall|id: Seq<char>|
                sending.contains_key(id) ==> (#[trigger] received[id]).msg_id >= sending[id].msg_id
            &&& forall|id: Seq<char>|
                receiving.contains_key(id) ==> (#[trigger] received[id]).msg_id
                    >= receiving[id].msg_id
        }),
{
    let received = merge_all(receiving, sending, second);
    let answered = merge_all(sending, received, first);
    assert(answered =~= received);
}

/// An addition raises the sum by exactly the delta.
pub proof fn lemma_add_raises_sum(m: CounterMap, owner: Seq<char>, delta: CounterValue)
    requires
        m.dom().finite(),
        add_fits(m, owner, delta),
    ensures
        counter_sum(counter_add(m, owner, delta)) == counter_sum(m) + delta.value,
{
    if m.contains_key(owner) {
        lemma_sum_insert(m, owner, counter_add(m, owner, delta)[owner]);
    } else {
        lemma_sum_insert(m, owner, delta);
    }
}

/// A counter that holds every entry of another with a value no smaller, and
/// beside them only entries that are not negative, sums to no less.
pub proof fn lemma_sum_monotone(smaller: CounterMap, larger: CounterMap)
    requires
        larger.dom().finite(),
        smaller.dom().subset_of(larger.dom()),
        forall|id: Seq<char>| #[trigger]
            larger.contains_key(id) ==> if smaller.contains_key(id) {
                smaller[id].value <= larger[id].value
            } else {
                0 <= larger[id].value
            },
    ensures
        counter_sum(smaller) <= counter_sum(larger),
    decreases larger.dom().len(),
{
    vstd::set_lib::lemma_len_subset(smaller.dom(), larger.dom());
    if !larger.dom().is_empty() {
        let id = larger.dom().choose();
        let rest = larger.remove(id);
        lemma_sum_remove(larger, id);
        if smaller.contains_key(id) {
            lemma_sum_remove(smaller, id);
            lemma_sum_monotone(smaller.remove(id), rest);
        } else {
            lemma_sum_monotone(smaller, rest);
        }
    }
}

/// The discipline of the counter, as far as a node can see it when a
/// counter comes in: no incoming value is negative, and a later version of
/// an entry holds no smaller value than the version that the node has.
pub open spec fn disciplined(m: CounterMap, incoming: CounterMap) -> bool {
    &&& incoming.dom().finite()
    &&& forall|id: Seq<char>| #[trigger]
        incoming.contains_key(id) ==> 0 <= incoming[id].value && (m.contains_key(id)
            && m[id].msg_id < incoming[id].msg_id ==> m[id].value <= incoming[id].value)
}

/// Taking in a counter does not lower the sum, as long as every owner keeps
/// to the discipline of the counter.
pub proof fn lemma_merge_all_monotone(m: CounterMap, incoming: CounterMap, own: Seq<char>)
    requires
        m.dom().finite(),
        disciplined(m, incoming),
    ensures
        merge_all(m, incoming, own).dom().finite(),
        counter_sum(m) <= counter_sum(merge_all(m, incoming, own)),
{
    let merged = merge_all(m, incoming, own);
    assert(merged.dom() =~= m.dom().union(incoming.dom().remove(own)));
    vstd::set_lib::lemma_set_union_finite_iff(m.dom(), incoming.dom().remove(own));
    lemma_sum_monotone(m, merged);
}

/// What a request does to the value that a read returns: an addition
/// raises it by its delta; taking in a counter does not lower it under the
/// discipline of the counter; nothing else changes it.
pub proof fn lemma_value_grows(own: Seq<char>, state: StateView, req: MessageView)
    requires
        state.counter.dom().finite(),
        match req.body {
            BodyView::Add { delta, .. } => delta >= 0,
            BodyView::Gossip { counter, .. } => disciplined(state.counter, counter),
            BodyView::GossipOk { counter, .. } => disciplined(state.counter, counter),
            _ => true,
        },
    ensures
        transition(own, state, req).0.counter.dom().finite(),
        counter_sum(state.counter) <= counter_sum(transition(own, state, req).0.counter),
        req.body is Add && transition(own, state, req).1 is Ok ==> counter_sum(
            transition(own, state, req).0.counter,
        ) == counter_sum(state.counter) + req.body->Add_delta,
{
    match req.body {
        BodyView::Add { delta, .. } => {
            if transition(own, state, req).1 is Ok {
                let stamped = CounterValue {
                    msg_id: (state.last_message_id + 1) as u32,
                    value: delta,
                };
                lemma_add_raises_sum(state.counter, own, stamped);
            }
        },
        BodyView::Gossip { counter, .. } => {
            lemma_merge_all_monotone(state.counter, counter, own);
        },
        BodyView::GossipOk { counter, .. } => {
            lemma_merge_all_monotone(state.counter, counter, own);
        },
        _ => {},
    }
}

/// A reply answers the request it was given for: it carries the request's
/// id, comes from the node and goes to the request's sender.
pub proof fn lemma_reply_answers_request(own: Seq<char>, state: StateView, req: MessageView)
    ensures
        transition(own, state, req).1 matches Ok(Some(reply)) ==> {
            &&& reply.src == own
            &&& reply.dest == req.src
            &&& req.body.msg_id() is Some
            &&& reply.body.in_reply_to() == req.body.msg_id()
        },
{
}

/// What happens to a node: a message arrives, or the gossip timer ticks.
pub enum Input {
    Message(MessageView),
    Tick,
}

impl Input {
    /// Whether the input is a message from `id`.
    pub open spec fn written_by(self, id: Seq<char>) -> bool {
        match self {
            Input::Message(req) => req.src == id,
            Input::Tick => false,
        }
    }
}

/// Whether `id` is the sender of one of the messages among `inputs`.
pub open spec fn has_written(inputs: Seq<Input>, id: Seq<char>) -> bool {
    exists|j: int| 0 <= j < inputs.len() && #[trigger] inputs[j].written_by(id)
}

/// The state after one input and the messages that the node sends for it:
/// the reply to a message, if there is one, or the gossips of a tick. An
/// input that is refused sends nothing.
pub open spec fn step(own: Seq<char>, neighbors: Seq<Seq<char>>, state: StateView, input: Input)
    -> (StateView, Seq<MessageView>) {
    match input {
        Input::Message(req) => {
            let (next, verdict) = transition(own, state, req);
            (
                next,
                match verdict {
                    Ok(Some(reply)) => seq![reply],
                    _ => Seq::empty(),
                },
            )
        },
        Input::Tick => {
            let (next, round) = tick(own, neighbors, state);
            (
                next,
                match round {
                    Ok(gossips) => gossips,
                    Err(_) => Seq::empty(),
                },
            )
        },
    }
}

/// The state after a run of inputs and all that the node has sent in it, in
/// the order of sending.
pub open spec fn run(
    own: Seq<char>,
    neighbors: Seq<Seq<char>>,
    state: StateView,
    inputs: Seq<Input>,
) -> (StateView, Seq<MessageView>)
    decreases inputs.len(),
{
    if inputs.len() == 0 {
        (state, Seq::empty())
    } else {
        let (before, sent) = run(own, neighbors, state, inputs.drop_last());
        let (after, sending) = step(own, neighbors, before, inputs.last());
        (after, sent + sending)
    }
}

/// Over any run of a node whose neighbors are those that a strategy gives
/// it: the last message id never goes back; every message that the node
/// sends comes from the node and goes to a member of the cluster or to
/// somebody who has written to the node; and the message ids that the node
/// stamps are strictly increasing in the order of sending.
pub proof fn lemma_run(
    strategy: Topology,
    ids: Seq<Seq<char>>,
    own: Seq<char>,
    state: StateView,
    inputs: Seq<Input>,
)
    requires
        ids.contains(own),
    ensures
        ({
            let (after, sent) = run(own, strategy.neighbors_of(ids, own), state, inputs);
            &&& state.last_message_id <= after.last_message_id
            &&& forall|k: int|
                0 <= k < sent.len() ==> (#[trigger] sent[k]).src == own && (ids.contains(
                    sent[k].dest,
                ) || has_written(inputs, sent[k].dest))
            &&& forall|k: int|
                0 <= k < sent.len() && (#[trigger] sent[k]).body is Gossip
                    ==> state.last_message_id < sent[k].body->Gossip_msg_id
                    <= after.last_message_id
            &&& forall|k: int, l: int|
                0 <= k < l < sent.len() && (#[trigger] sent[k]).body is Gossip && (
                #[trigger] sent[l]).body is Gossip ==> sent[k].body->Gossip_msg_id
                    < sent[l].body->Gossip_msg_id
        }),
    decreases inputs.len(),
{
    if inputs.len() > 0 {
        let neighbors = strategy.neighbors_of(ids, own);
        let earlier = inputs.drop_last();
        let (before, sent) = run(own, neighbors, state, earlier);
        let (after, sending) = step(own, neighbors, before, inputs.last());
        let all = sent + sending;
        lemma_run(strategy, ids, own, state, earlier);
        crate::topologies::lemma_neighbors_are_members(strategy, ids, own);
        assert forall|k: int| 0 <= k < all.len() implies (#[trigger] all[k]).src == own && (
        ids.contains(all[k].dest) || has_written(inputs, all[k].dest)) by {
            if k < sent.len() {
                if has_written(earlier, sent[k].dest) {
                    let j = choose|j: int|
                        0 <= j < earlier.len() && #[trigger] earlier[j].written_by(sent[k].dest);
                    assert(inputs[j].written_by(sent[k].dest));
                }
            } else {
                match inputs.last() {
                    Input::Message(req) => {
                        assert(inputs[inputs.len() - 1].written_by(req.src));
                    },
                    Input::Tick => {
                        assert(ids.contains(neighbors[k - sent.len()]));
                    },
                }
            }
        }
    }
}

/// The mathematical form of the consumer's next action.
pub open spec fn action_view(action: Result<Action<Message>, NodeError>) -> Result<
    Action<MessageView>,
    NodeError,
> {
    match action {
        Ok(Action::Write(message)) => Ok(Action::Write(message@)),
        Ok(Action::Continue) => Ok(Action::Continue),
        Ok(Action::Drop(error)) => Ok(Action::Drop(error)),
        Ok(Action::Stop) => Ok(Action::Stop),
        Err(error) => Err(error),
    }
}

/// A node of the counter workload.
pub struct Node {
    pub node_id: String,
    /// The cluster membership that the node was initialized with.
    pub node_ids: Vec<String>,
    pub state: NodeState,
    /// The neighbor map derived from the membership.
    pub topology: StringHashMap<Vec<String>>,
}

impl Node {
    /// The node's neighbor map.
    pub open spec fn topology(&self) -> NeighborMap {
        neighbor_map_view(self.topology@)
    }

    /// Whether the node's parts fit together: the node is a member of its
    /// cluster, the state is well formed and the neighbor map is the ring
    /// over the membership.
    pub open spec fn wf(&self) -> bool {
        &&& self.node_ids.deep_view().contains(self.node_id@)
        &&& self.state.wf()
        &&& self.topology() == Topology::RingTopology.neighbor_map(self.node_ids.deep_view())
    }

    /// Builds the node from the first message it receives, which must be an
    /// `init` that names the node among the members of the cluster. Gives
    /// the node back together with the `init_ok` reply that is to be
    /// written. The node starts with an empty counter and the ring over the
    /// membership as its neighbor map.
    pub fn init(msg: Message) -> (made: Result<(Node, Message), NodeError>)
        ensures
            match made {
                Ok((node, reply)) => {
                    &&& msg.body@ matches BodyView::Init { msg_id, node_id, node_ids }
                    &&& node_ids.contains(node_id)
                    &&& node.wf()
                    &&& node.node_id@ == node_id
                    &&& node.node_ids.deep_view() == node_ids
                    &&& node.state@ == (StateView {
                        last_message_id: 0,
                        counter: CounterMap::empty(),
                    })
                    &&& reply@ == (MessageView {
                        src: node_id,
                        dest: msg.src@,
                        body: BodyView::InitOk { in_reply_to: msg_id },
                    })
                },
                Err(error) => match msg.body@ {
                    BodyView::Init { node_id, node_ids, .. } => error == NodeError::NoNeighbors
                        && !node_ids.contains(node_id),
                    _ => error == NodeError::InitExpected,
                },
            },
    {
        match msg.body {
            MessageBody::Init { msg_id, node_id, node_ids } => {
                let topology = Topology::RingTopology.get_topology(&node_ids);
                proof {
                    let ids = node_ids.deep_view();
                    assert(neighbor_map_view(topology@).contains_key(node_id@)
                        == topology@.contains_key(node_id@));
                    assert(Topology::RingTopology.neighbor_map(ids).contains_key(node_id@)
                        == ids.contains(node_id@));
                }
                if !topology.contains_key(node_id.as_str()) {
                    return Err(NodeError::NoNeighbors);
                }
                let reply = Message {
                    src: node_id.clone(),
                    dest: msg.src,
                    body: MessageBody::InitOk { in_reply_to: msg_id },
                };
                let state = NodeState::default();
                Ok((Node { node_id, node_ids, state, topology }, reply))
            },
            _ => Err(NodeError::InitExpected),
        }
    }

    /// Handles one inbound message: updates the state and gives the reply,
    /// if the message calls for one.
    ///
    /// An `init` is refused, for the node is initialized; a body that is
    /// itself a reply to a client is not understood; a sum or a message id
    /// that leaves its range is an overflow. A refused message leaves the
    /// state as it was.
    pub fn handle(&mut self, req: Message) -> (verdict: Result<Option<Message>, NodeError>)
        requires
            old(self).wf(),
            req.wf(),
        ensures
            final(self).wf(),
            final(self).node_id@ == old(self).node_id@,
            final(self).node_ids.deep_view() == old(self).node_ids.deep_view(),
            final(self).topology() == old(self).topology(),
            (final(self).state@, verdict_view(verdict)) == transition(
                old(self).node_id@,
                old(self).state@,
                req@,
            ),
            verdict matches Ok(Some(reply)) ==> {
                &&& reply.src@ == old(self).node_id@
                &&& reply.dest@ == req.src@
                &&& req.body@.msg_id() is Some
                &&& reply.body@.in_reply_to() == req.body@.msg_id()
            },
            verdict matches Ok(Some(reply)) ==> reply.wf(),
    {
        let body = match req.body {
            MessageBody::Read { msg_id } => {
                match self.state.counter.checked_sum() {
                    Some(value) => MessageBody::ReadOk { value, in_reply_to: msg_id },
                    None => {
                        return Err(NodeError::Overflow);
                    },
                }
            },
            MessageBody::Add { msg_id, delta } => {
                if self.state.last_message_id == u32::MAX {
                    return Err(NodeError::Overflow);
                }
                let fits = match self.state.counter.get(self.node_id.as_str()) {
                    Some(current) => {
                        let total: i64 = current.value as i64 + delta as i64;
                        -0x8000_0000 <= total && total <= 0x7fff_ffff
                    },
                    None => true,
                };
                if !fits {
                    return Err(NodeError::Overflow);
                }
                let last_msg_id = self.state.last_message_id + 1;
                self.state.last_message_id = last_msg_id;
                self.state.counter.add(
                    self.node_id.as_str(),
                    CounterValue { msg_id: last_msg_id, value: delta },
                );
                MessageBody::AddOk { in_reply_to: msg_id }
            },
            MessageBody::Gossip { msg_id, counter } => {
                self.state.counter.merge_from(&counter, self.node_id.as_str());
                MessageBody::GossipOk { counter: self.state.counter.clone(), in_reply_to: msg_id }
            },
            MessageBody::GossipOk { in_reply_to: _, counter } => {
                self.state.counter.merge_from(&counter, self.node_id.as_str());
                return Ok(None);
            },
            MessageBody::Topology { msg_id, topology: _ } => MessageBody::TopologyOk {
                in_reply_to: msg_id,
            },
            MessageBody::Init { .. } => {
                return Err(NodeError::InitRepeated);
            },
            _ => {
                return Err(NodeError::Unrecognized);
            },
        };
        Ok(Some(Message { src: self.node_id.clone(), dest: req.src, body }))
    }

    /// One tick of the gossip timer: builds a gossip with the whole counter
    /// for the node's successor in the ring, under a fresh message id, and
    /// remembers the last id used. Nothing else changes.
    ///
    /// Ids that would pass the largest one are an overflow, which leaves the
    /// state as it was.
    pub fn gossip(&mut self) -> (round: Result<Vec<Message>, NodeError>)
        requires
            old(self).wf(),
        ensures
            final(self).wf(),
            final(self).node_id@ == old(self).node_id@,
            final(self).node_ids.deep_view() == old(self).node_ids.deep_view(),
            final(self).topology() == old(self).topology(),
            (final(self).state@, round_view(round)) == tick(
                old(self).node_id@,
                Topology::RingTopology.neighbors_of(
                    old(self).node_ids.deep_view(),
                    old(self).node_id@,
                ),
                old(self).state@,
            ),
            round matches Ok(messages) ==> forall|i: int|
                0 <= i < messages.len() ==> {
                    &&& (#[trigger] messages[i]).wf()
                    &&& messages[i].src@ == old(self).node_id@
                    &&& old(self).node_ids.deep_view().contains(messages[i].dest@)
                },
    {
        proof {
            assert(Topology::RingTopology.neighbor_map(self.node_ids.deep_view()).contains_key(
                self.node_id@,
            ));
        }
        let neighbors = match self.topology.get(self.node_id.as_str()) {
            Some(list) => list,
            None => {
                return Err(NodeError::NoNeighbors);
            },
        };
        proof {
            assert(Topology::RingTopology.neighbor_map(self.node_ids.deep_view())[self.node_id@]
                == Topology::RingTopology.neighbors_of(self.node_ids.deep_view(), self.node_id@));
        }
        let n = neighbors.len();
        let last = self.state.last_message_id;
        if n > (u32::MAX - last) as usize {
            return Err(NodeError::Overflow);
        }
        let mut messages: Vec<Message> = Vec::new();
        let mut msg_id = last;
        let mut i: usize = 0;
        while i < n
            invariant
                i <= n,
                n == neighbors.len(),
                last + n <= u32::MAX,
                msg_id == last + i,
                self.state.wf(),
                messages.len() == i,
                forall|j: int|
                    0 <= j < i ==> (#[trigger] messages[j]).wf() && messages[j]@ == (MessageView {
                        src: self.node_id@,
                        dest: neighbors[j]@,
                        body: BodyView::Gossip {
                            msg_id: (last + 1 + j) as u32,
                            counter: self.state.counter@,
                        },
                    }),
            decreases n - i,
        {
            msg_id = msg_id + 1;
            messages.push(
                Message {
                    src: self.node_id.clone(),
                    dest: neighbors[i].clone(),
                    body: MessageBody::Gossip { msg_id, counter: self.state.counter.clone() },
                },
            );
            i += 1;
        }
        proof {
            assert(messages_view(messages@) =~= gossip_round(
                self.node_id@,
                neighbors.deep_view(),
                last,
                self.state.counter@,
            ));
            crate::topologies::lemma_neighbors_are_members(
                Topology::RingTopology,
                self.node_ids.deep_view(),
                self.node_id@,
            );
            assert forall|i: int| 0 <= i < messages.len() implies self.node_ids.deep_view().contains(
                (#[trigger] messages[i]).dest@,
            ) by {
                assert(messages[i].dest@ == neighbors.deep_view()[i]);
            }
        }
        self.state.last_message_id = msg_id;
        Ok(messages)
    }

    /// Takes one event off the bus and says what the consumer does next.
    ///
    /// An inbound message is handled, and its reply, if any, is to be
    /// written; a message that was not understood is dropped, and a fatal
    /// error ends the node. A pushed message is to be written as it is: the
    /// tick that built it has updated the state already, so it is not
    /// handled again. A shutdown ends the loop.
    pub fn react(&mut self, event: Event<Message>) -> (action: Result<Action<Message>, NodeError>)
        requires
            old(self).wf(),
            event matches Event::Reply(req) ==> req.wf(),
        ensures
            final(self).wf(),
            final(self).node_id@ == old(self).node_id@,
            final(self).node_ids.deep_view() == old(self).node_ids.deep_view(),
            final(self).topology() == old(self).topology(),
            match event {
                Event::Reply(req) => (final(self).state@, action_view(action)) == ({
                    let (state, verdict) = transition(old(self).node_id@, old(self).state@, req@);
                    (state, settled(verdict))
                }),
                Event::Push(message) => final(self).state@ == old(self).state@ && action_view(
                    action,
                ) == Ok::<Action<MessageView>, NodeError>(Action::Write(message@)),
                Event::Shutdown => final(self).state@ == old(self).state@ && action_view(action)
                    == Ok::<Action<MessageView>, NodeError>(Action::Stop),
            },
    {
        match event {
            Event::Reply(req) => {
                let verdict = self.handle(req);
                settle(verdict)
            },
            Event::Push(message) => Ok(Action::Write(message)),
            Event::Shutdown => Ok(Action::Stop),
        }
    }

    /// The nodes that this node gossips to.
    pub fn get_neighbors(&self) -> (neighbors: Result<Vec<String>, NodeError>)
        ensures
            match neighbors {
                Ok(list) => self.topology().contains_key(self.node_id@) && list.deep_view()
                    == self.topology()[self.node_id@],
                Err(error) => error == NodeError::NoNeighbors && !self.topology().contains_key(
                    self.node_id@,
                ),
            },
    {
        match self.topology.get(self.node_id.as_str()) {
            Some(list) => Ok(crate::topologies::copy_from(list, 0)),
            None => Err(NodeError::NoNeighbors),
        }
    }
}

} // verus!
