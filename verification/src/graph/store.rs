//! The graph as its readers see it, and a store that keeps it in memory.

use vstd::prelude::*;

use crate::trusted::text::str_eq;

verus! {

/// The id of a node.
#[derive(Debug, Clone, Copy, PartialEq, Eq, Structural, Hash)]
pub struct NodeId(pub u64);

/// The id of an edge.
#[derive(Debug, Clone, Copy, PartialEq, Eq, Structural, Hash)]
pub struct EdgeId(pub u64);

/// A moment in the history of the store.
#[derive(Debug, Clone, Copy, PartialEq, Eq, Structural)]
pub struct EpochId(pub u64);

impl EpochId {
    /// Creates an epoch.
    #[must_use]
    pub fn new(epoch: u64) -> (r: Self)
        ensures
            r == EpochId(epoch),
    {
        EpochId(epoch)
    }
}

/// The id of a transaction.
#[derive(Debug, Clone, Copy, PartialEq, Eq, Structural)]
pub struct TransactionId(pub u64);

/// The epoch of a version that is not committed yet.
pub const PENDING_EPOCH: u64 = 0xffff_ffff_ffff_ffff;

/// The transaction of the store itself, whose writes are committed at once.
pub const SYSTEM_TRANSACTION: u64 = 1;

impl TransactionId {
    /// The store itself, whose writes are committed at once.
    #[must_use]
    pub fn system() -> (r: Self)
        ensures
            r == TransactionId(SYSTEM_TRANSACTION),
    {
        TransactionId(SYSTEM_TRANSACTION)
    }
}

/// Which edges of a node are meant.
#[derive(Debug, Clone, Copy, PartialEq, Eq, Structural)]
pub enum Direction {
    /// Those that start at the node.
    Outgoing,
    /// Those that end at the node.
    Incoming,
}

/// The texts of strings.
pub open spec fn string_texts(strings: Seq<String>) -> Seq<Seq<char>> {
    strings.map_values(|s: String| s@)
}

/// A node as it is read.
#[derive(Debug)]
pub struct Node {
    /// The node's labels.
    pub labels: Vec<String>,
}

/// Whether a label is among the labels.
fn contains_label(labels: &Vec<String>, label: &str) -> (r: bool)
    ensures
        r == string_texts(labels@).contains(label@),
{
    let mut i: usize = 0;
    while i < labels.len()
        invariant
            i <= labels@.len(),
            forall|k: int| #![trigger string_texts(labels@)[k]]
                0 <= k < i ==> string_texts(labels@)[k] != label@,
        decreases labels.len() - i,
    {
        assert(string_texts(labels@)[i as int] == labels@[i as int]@);
        if str_eq(labels[i].as_str(), label) {
            return true;
        }
        i = i + 1;
    }
    false
}

impl Node {
    /// Whether the node has a label.
    #[must_use]
    pub fn has_label(&self, label: &str) -> (r: bool)
        ensures
            r == string_texts(self.labels@).contains(label@),
    {
        contains_label(&self.labels, label)
    }
}

/// A graph: nodes, and edges between them.
pub trait GraphStore {
    /// The nodes that exist now.
    spec fn nodes(&self) -> Seq<NodeId>;

    /// The edges of a node: the node at the other end, and the edge.
    spec fn edges(&self, node: NodeId, direction: Direction) -> Seq<(NodeId, EdgeId)>;

    /// The nodes that exist now. None is listed twice.
    fn node_ids(&self) -> (r: Vec<NodeId>)
        ensures
            r@ == self.nodes(),
            self.nodes().no_duplicates(),
    ;

    /// The edges of a node: the node at the other end, and the edge.
    fn edges_from(&self, node: NodeId, direction: Direction) -> (r: Vec<(NodeId, EdgeId)>)
        ensures
            r@ == self.edges(node, direction),
    ;
}

/// A graph that can be searched by label and by version.
pub trait GraphStoreSearch: GraphStore {
    /// The nodes with a label, in whatever version.
    spec fn labelled(&self, label: Seq<char>) -> Seq<NodeId>;

    /// All nodes, in whatever version.
    spec fn every_node(&self) -> Seq<NodeId>;

    /// Whether a node is visible at an epoch.
    spec fn visible_at(&self, id: NodeId, epoch: EpochId) -> bool;

    /// Whether a node is visible to a transaction that looks at an epoch.
    spec fn visible_to(&self, id: NodeId, epoch: EpochId, tx: TransactionId) -> bool;

    /// The labels of a node, if there is such a node.
    spec fn labels_of(&self, id: NodeId) -> Option<Seq<Seq<char>>>;

    /// The nodes with a label.
    fn nodes_by_label(&self, label: &str) -> (r: Vec<NodeId>)
        ensures
            r@ == self.labelled(label@),
    ;

    /// All nodes, uncommitted ones too.
    fn all_node_ids(&self) -> (r: Vec<NodeId>)
        ensures
            r@ == self.every_node(),
    ;

    /// The ids that are visible at an epoch, in the given order.
    fn filter_visible_node_ids(&self, ids: &Vec<NodeId>, epoch: EpochId) -> (r: Vec<NodeId>)
        ensures
            r@ == ids@.filter(|id: NodeId| self.visible_at(id, epoch)),
    ;

    /// The ids that are visible to a transaction, in the given order.
    fn filter_visible_node_ids_versioned(
        &self,
        ids: &Vec<NodeId>,
        epoch: EpochId,
        tx: TransactionId,
    ) -> (r: Vec<NodeId>)
        ensures
            r@ == ids@.filter(|id: NodeId| self.visible_to(id, epoch, tx)),
    ;

    /// A node, if there is one with this id.
    fn get_node(&self, id: NodeId) -> (r: Option<Node>)
        ensures
            match r {
                Some(node) => self.labels_of(id) == Some(string_texts(node.labels@)),
                None => self.labels_of(id) is None,
            },
    ;
}

/// A node as it is stored.
struct NodeRecord {
    labels: Vec<String>,
    created: EpochId,
    writer: TransactionId,
}

/// An edge as it is stored.
struct EdgeRecord {
    source: NodeId,
    target: NodeId,
    kind: String,
}

/// A graph that is kept in memory. A node's id is its position, and so is an
/// edge's.
pub struct LpgStore {
    records: Vec<NodeRecord>,
    links: Vec<EdgeRecord>,
    epoch: EpochId,
}

impl LpgStore {
    /// How many nodes there are, in whatever version.
    pub closed spec fn node_total(&self) -> nat {
        self.records@.len()
    }

    /// How many edges there are.
    pub closed spec fn edge_total(&self) -> nat {
        self.links@.len()
    }

    /// The labels of the node at a position.
    pub closed spec fn labels_at(&self, i: int) -> Seq<Seq<char>> {
        string_texts(self.records@[i].labels@)
    }

    /// When the node at a position was created.
    pub closed spec fn created_at(&self, i: int) -> EpochId {
        self.records@[i].created
    }

    /// Who created the node at a position.
    pub closed spec fn written_by(&self, i: int) -> TransactionId {
        self.records@[i].writer
    }

    /// Where the edge at a position starts and ends, and its type.
    pub closed spec fn link_at(&self, i: int) -> (NodeId, NodeId, Seq<char>) {
        (self.links@[i].source, self.links@[i].target, self.links@[i].kind@)
    }

    /// The epoch of writes outside transactions.
    pub closed spec fn current(&self) -> EpochId {
        self.epoch
    }

    /// Whether there is a node with this id.
    pub open spec fn has_node(&self, id: NodeId) -> bool {
        id.0 < self.node_total()
    }

    /// The ids of the first `n` positions.
    pub open spec fn first_ids(&self, n: nat) -> Seq<NodeId> {
        Seq::new(n, |i: int| NodeId(i as u64))
    }

    /// Whether the node at a position exists at the current epoch.
    pub open spec fn is_current(&self, id: NodeId) -> bool {
        self.created_at(id.0 as int).0 <= self.current().0 && self.created_at(id.0 as int)
            != EpochId(PENDING_EPOCH)
    }

    /// Nothing but the nodes changed, and the nodes only by one more at the end.
    pub open spec fn one_more_node(
        &self,
        before: &Self,
        labels: Seq<Seq<char>>,
        created: EpochId,
        writer: TransactionId,
    ) -> bool {
        let n = before.node_total() as int;
        &&& self.node_total() == n + 1
        &&& self.labels_at(n) == labels
        &&& self.created_at(n) == created
        &&& self.written_by(n) == writer
        &&& forall|i: int| #![trigger self.labels_at(i)]
            0 <= i < n ==> self.labels_at(i) == before.labels_at(i)
        &&& forall|i: int| #![trigger self.created_at(i)]
            0 <= i < n ==> self.created_at(i) == before.created_at(i)
        &&& forall|i: int| #![trigger self.written_by(i)]
            0 <= i < n ==> self.written_by(i) == before.written_by(i)
        &&& self.edge_total() == before.edge_total()
        &&& forall|i: int| #![trigger self.link_at(i)]
            0 <= i < self.edge_total() ==> self.link_at(i) == before.link_at(i)
        &&& self.current() == before.current()
    }

    /// Creates a store without nodes, at the first epoch.
    #[must_use]
    pub fn new() -> (r: Self)
        ensures
            r.node_total() == 0,
            r.edge_total() == 0,
            r.current() == EpochId(0),
    {
        Self { records: Vec::new(), links: Vec::new(), epoch: EpochId(0) }
    }

    /// Creates a node with the given labels at the current epoch.
    pub fn create_node(&mut self, labels: &[&str]) -> (r: NodeId)
        ensures
            r == NodeId(old(self).node_total() as u64),
            final(self).one_more_node(
                old(self),
                labels@.map_values(|s: &str| s@),
                old(self).current(),
                TransactionId(SYSTEM_TRANSACTION),
            ),
    {
        let epoch: EpochId = self.epoch;
        self.add_node(labels, epoch, TransactionId(SYSTEM_TRANSACTION))
    }

    /// Creates a node as a transaction sees it: committed at the given epoch when
    /// the store itself writes, and pending otherwise.
    pub fn create_node_versioned(
        &mut self,
        labels: &[&str],
        epoch: EpochId,
        tx: TransactionId,
    ) -> (r: NodeId)
        ensures
            r == NodeId(old(self).node_total() as u64),
            final(self).one_more_node(
                old(self),
                labels@.map_values(|s: &str| s@),
                if tx == TransactionId(SYSTEM_TRANSACTION) {
                    epoch
                } else {
                    EpochId(PENDING_EPOCH)
                },
                tx,
            ),
    {
        let created: EpochId = if tx == TransactionId(SYSTEM_TRANSACTION) {
            epoch
        } else {
            EpochId(PENDING_EPOCH)
        };
        self.add_node(labels, created, tx)
    }

    fn add_node(&mut self, labels: &[&str], created: EpochId, writer: TransactionId) -> (r: NodeId)
        ensures
            r == NodeId(old(self).node_total() as u64),
            final(self).one_more_node(
                old(self),
                labels@.map_values(|s: &str| s@),
                created,
                writer,
            ),
    {
        let ghost wanted = labels@.map_values(|s: &str| s@);
        let mut copies: Vec<String> = Vec::new();
        let mut i: usize = 0;
        while i < labels.len()
            invariant
                i <= labels@.len(),
                wanted == labels@.map_values(|s: &str| s@),
                string_texts(copies@) == wanted.take(i as int),
            decreases labels.len() - i,
        {
            let ghost before = copies@;
            let copy: String = labels[i].to_owned();
            copies.push(copy);
            i = i + 1;
            proof {
                assert(string_texts(copies@) =~= string_texts(before).push(copy@));
                assert(string_texts(copies@) =~= wanted.take(i as int));
            }
        }
        assert(wanted.take(i as int) =~= wanted);
        let id = NodeId(self.records.len() as u64);
        self.records.push(NodeRecord { labels: copies, created, writer });
        id
    }

    /// Creates an edge between two nodes.
    pub fn create_edge(&mut self, source: NodeId, target: NodeId, kind: &str) -> (r: EdgeId)
        ensures
            r == EdgeId(old(self).edge_total() as u64),
            final(self).edge_total() == old(self).edge_total() + 1,
            final(self).link_at(old(self).edge_total() as int) == (source, target, kind@),
            forall|i: int| #![trigger final(self).link_at(i)]
                0 <= i < old(self).edge_total() ==> final(self).link_at(i) == old(self).link_at(i),
            final(self).node_total() == old(self).node_total(),
            forall|i: int| #![trigger final(self).labels_at(i)]
                final(self).labels_at(i) == old(self).labels_at(i),
            forall|i: int| #![trigger final(self).created_at(i)]
                final(self).created_at(i) == old(self).created_at(i),
            forall|i: int| #![trigger final(self).written_by(i)]
                final(self).written_by(i) == old(self).written_by(i),
            final(self).current() == old(self).current(),
    {
        let id = EdgeId(self.links.len() as u64);
        self.links.push(EdgeRecord { source, target, kind: kind.to_owned() });
        id
    }

    /// Whether the node with an id exists at an epoch.
    fn existed_at(&self, id: NodeId, epoch: EpochId) -> (r: bool)
        ensures
            r == (self.has_node(id) && self.created_at(id.0 as int).0 <= epoch.0
                && self.created_at(id.0 as int) != EpochId(PENDING_EPOCH)),
    {
        if id.0 >= self.records.len() as u64 {
            return false;
        }
        let created: EpochId = self.records[id.0 as usize].created;
        created.0 <= epoch.0 && created.0 != PENDING_EPOCH
    }
}

/// The edges among the first `n` that a node has in a direction.
pub open spec fn edges_among(
    store: &LpgStore,
    node: NodeId,
    direction: Direction,
    n: nat,
) -> Seq<(NodeId, EdgeId)>
    decreases n,
{
    if n == 0 {
        Seq::empty()
    } else {
        let rest = edges_among(store, node, direction, (n - 1) as nat);
        let (source, target, _) = store.link_at(n - 1);
        match direction {
            Direction::Outgoing => if source == node {
                rest.push((target, EdgeId((n - 1) as u64)))
            } else {
                rest
            },
            Direction::Incoming => if target == node {
                rest.push((source, EdgeId((n - 1) as u64)))
            } else {
                rest
            },
        }
    }
}

proof fn lemma_filter_push(s: Seq<NodeId>, x: NodeId, keep: spec_fn(NodeId) -> bool)
    ensures
        s.push(x).filter(keep) == if keep(x) {
            s.filter(keep).push(x)
        } else {
            s.filter(keep)
        },
{
    reveal(Seq::filter);
    assert(s.push(x).drop_last() =~= s);
}

/// Which nodes a store lists: by label exactly those with the label, over all exactly
/// those that there are, and now exactly those that were created by now and committed.
/// None is listed twice, and earlier ones come first.
pub proof fn law_nodes_are_listed(store: LpgStore, label: Seq<char>, id: NodeId)
    ensures
        store.has_node(id) ==> (store.labelled(label).contains(id) <==> store.labels_at(
            id.0 as int,
        ).contains(label)),
        store.has_node(id) ==> store.every_node().contains(id),
        store.has_node(id) ==> (store.nodes().contains(id) <==> store.created_at(id.0 as int).0
            <= store.current().0 && store.created_at(id.0 as int).0 != 0xffff_ffff_ffff_ffff),
        store.node_total() <= u64::MAX && !store.has_node(id) ==> !store.labelled(label).contains(
            id,
        ) && !store.every_node().contains(id) && !store.nodes().contains(id),
        store.node_total() <= u64::MAX ==> forall|i: int, j: int|
            0 <= i < j < store.every_node().len() ==> store.every_node()[i].0
                < store.every_node()[j].0,
        store.labels_of(id) == if id.0 < store.node_total() {
            Some(store.labels_at(id.0 as int))
        } else {
            None
        },
{
    let all = store.first_ids(store.node_total());
    let by_label = |n: NodeId| store.labels_at(n.0 as int).contains(label);
    let now = |n: NodeId| store.is_current(n);
    lemma_filter_contains(all, by_label, id);
    lemma_filter_contains(all, now, id);
    if store.has_node(id) {
        assert(all[id.0 as int] == id);
    }
}

proof fn lemma_filter_contains(s: Seq<NodeId>, keep: spec_fn(NodeId) -> bool, x: NodeId)
    ensures
        s.filter(keep).contains(x) <==> s.contains(x) && keep(x),
    decreases s.len(),
{
    reveal(Seq::filter);
    if s.len() > 0 {
        let shorter = s.drop_last();
        lemma_filter_contains(shorter, keep, x);
        assert(s =~= shorter.push(s.last()));
        vstd::seq_lib::lemma_seq_contains_after_push(shorter, s.last(), x);
        vstd::seq_lib::lemma_seq_contains_after_push(shorter.filter(keep), s.last(), x);
    }
}

/// Who sees a node. Once it is committed, everyone does who looks at its epoch or a
/// later one. Before, only the transaction that wrote it does, at whatever epoch.
pub proof fn law_who_sees_a_node(store: LpgStore, id: NodeId, epoch: EpochId, tx: TransactionId)
    ensures
        !store.has_node(id) ==> !store.visible_at(id, epoch) && !store.visible_to(id, epoch, tx),
        store.has_node(id) && store.written_by(id.0 as int) == tx ==> store.visible_to(
            id,
            epoch,
            tx,
        ),
        store.has_node(id) && store.created_at(id.0 as int).0 <= epoch.0 && store.created_at(
            id.0 as int,
        ).0 != 0xffff_ffff_ffff_ffff ==> store.visible_at(id, epoch) && store.visible_to(
            id,
            epoch,
            tx,
        ),
        store.created_at(id.0 as int).0 == 0xffff_ffff_ffff_ffff || store.created_at(
            id.0 as int,
        ).0 > epoch.0 ==> !store.visible_at(id, epoch),
        (store.created_at(id.0 as int).0 == 0xffff_ffff_ffff_ffff || store.created_at(
            id.0 as int,
        ).0 > epoch.0) && store.written_by(id.0 as int) != tx ==> !store.visible_to(id, epoch, tx),
{
}

/// A node that a transaction has created is seen by that transaction and by no other,
/// until it is committed, and it changes nothing for the nodes before it.
pub proof fn law_new_node_is_its_writers(
    before: LpgStore,
    after: LpgStore,
    labels: Seq<Seq<char>>,
    writer: TransactionId,
    other: TransactionId,
    epoch: EpochId,
    old_id: NodeId,
)
    requires
        after.one_more_node(&before, labels, EpochId(0xffff_ffff_ffff_ffff), writer),
        before.node_total() <= u64::MAX,
        other != writer,
    ensures
        ({
            let id = NodeId(before.node_total() as u64);
            &&& after.visible_to(id, epoch, writer)
            &&& !after.visible_to(id, epoch, other)
            &&& !after.visible_at(id, epoch)
            &&& !before.has_node(id) && after.has_node(id)
            &&& after.labels_of(id) == Some(labels)
        }),
        before.has_node(old_id) ==> {
            &&& after.visible_at(old_id, epoch) == before.visible_at(old_id, epoch)
            &&& after.visible_to(old_id, epoch, writer) == before.visible_to(old_id, epoch, writer)
            &&& after.labels_of(old_id) == before.labels_of(old_id)
        },
        after.edges(old_id, Direction::Outgoing) == before.edges(old_id, Direction::Outgoing),
        after.edges(old_id, Direction::Incoming) == before.edges(old_id, Direction::Incoming),
{
    assert(after.labels_at(old_id.0 as int) == after.labels_at(old_id.0 as int));
    assert(after.created_at(old_id.0 as int) == after.created_at(old_id.0 as int));
    assert(after.written_by(old_id.0 as int) == after.written_by(old_id.0 as int));
    lemma_same_edges(&before, &after, old_id, Direction::Outgoing, before.edge_total());
    lemma_same_edges(&before, &after, old_id, Direction::Incoming, before.edge_total());
}

proof fn lemma_same_edges(
    before: &LpgStore,
    after: &LpgStore,
    node: NodeId,
    direction: Direction,
    n: nat,
)
    requires
        n <= after.edge_total(),
        forall|i: int| #![trigger after.link_at(i)]
            0 <= i < after.edge_total() ==> after.link_at(i) == before.link_at(i),
    ensures
        edges_among(after, node, direction, n) == edges_among(before, node, direction, n),
    decreases n,
{
    if n > 0 {
        lemma_same_edges(before, after, node, direction, (n - 1) as nat);
        assert(after.link_at(n - 1) == before.link_at(n - 1));
    }
}

/// An edge is listed at its source as one that leaves to its target, and at its target
/// as one that comes from its source, and nowhere else.
pub proof fn law_edges_join_source_and_target(store: LpgStore, a: NodeId, b: NodeId, edge: EdgeId)
    requires
        store.edge_total() <= u64::MAX,
    ensures
        store.edges(a, Direction::Outgoing).contains((b, edge)) <==> edge.0 < store.edge_total()
            && store.link_at(edge.0 as int).0 == a && store.link_at(edge.0 as int).1 == b,
        store.edges(b, Direction::Incoming).contains((a, edge)) <==> edge.0 < store.edge_total()
            && store.link_at(edge.0 as int).0 == a && store.link_at(edge.0 as int).1 == b,
{
    lemma_edges_among(&store, a, b, edge, store.edge_total());
}

proof fn lemma_edges_among(store: &LpgStore, a: NodeId, b: NodeId, edge: EdgeId, n: nat)
    requires
        n <= u64::MAX,
    ensures
        edges_among(store, a, Direction::Outgoing, n).contains((b, edge)) <==> edge.0 < n
            && store.link_at(edge.0 as int).0 == a && store.link_at(edge.0 as int).1 == b,
        edges_among(store, b, Direction::Incoming, n).contains((a, edge)) <==> edge.0 < n
            && store.link_at(edge.0 as int).0 == a && store.link_at(edge.0 as int).1 == b,
    decreases n,
{
    if n > 0 {
        lemma_edges_among(store, a, b, edge, (n - 1) as nat);
        let last = EdgeId((n - 1) as u64);
        let (source, target, _) = store.link_at(n - 1);
        vstd::seq_lib::lemma_seq_contains_after_push(
            edges_among(store, a, Direction::Outgoing, (n - 1) as nat),
            (target, last),
            (b, edge),
        );
        vstd::seq_lib::lemma_seq_contains_after_push(
            edges_among(store, b, Direction::Incoming, (n - 1) as nat),
            (source, last),
            (a, edge),
        );
    }
}

/// A node that is created comes after all others, with its labels, its epoch and its
/// writer, and nothing else changes.
pub proof fn law_nodes_are_added_at_the_end(
    before: LpgStore,
    after: LpgStore,
    labels: Seq<Seq<char>>,
    created: EpochId,
    writer: TransactionId,
    i: int,
)
    requires
        after.one_more_node(&before, labels, created, writer),
    ensures
        after.node_total() == before.node_total() + 1,
        after.labels_at(before.node_total() as int) == labels,
        after.created_at(before.node_total() as int) == created,
        after.written_by(before.node_total() as int) == writer,
        0 <= i < before.node_total() ==> after.labels_at(i) == before.labels_at(i)
            && after.created_at(i) == before.created_at(i) && after.written_by(i)
            == before.written_by(i),
        after.edge_total() == before.edge_total(),
        0 <= i < before.edge_total() ==> after.link_at(i) == before.link_at(i),
        after.current() == before.current(),
        PENDING_EPOCH == 0xffff_ffff_ffff_ffff,
        SYSTEM_TRANSACTION == 1,
{
}

/// Edges are listed in the order in which they were created, each once, and so are the
/// nodes with a label and the nodes that exist now.
pub proof fn law_earlier_ones_are_listed_first(
    store: LpgStore,
    node: NodeId,
    direction: Direction,
    label: Seq<char>,
    i: int,
    j: int,
)
    requires
        store.edge_total() <= u64::MAX,
        store.node_total() <= u64::MAX,
        0 <= i < j,
    ensures
        j < store.edges(node, direction).len() ==> store.edges(node, direction)[i].1.0
            < store.edges(node, direction)[j].1.0,
        j < store.labelled(label).len() ==> store.labelled(label)[i].0 < store.labelled(
            label,
        )[j].0,
        j < store.nodes().len() ==> store.nodes()[i].0 < store.nodes()[j].0,
{
    lemma_edges_ascend(&store, node, direction, store.edge_total());
    let ids = store.first_ids(store.node_total());
    lemma_filter_ascends(ids, |id: NodeId| store.labels_at(id.0 as int).contains(label));
    lemma_filter_ascends(ids, |id: NodeId| store.is_current(id));
}

proof fn lemma_edges_ascend(store: &LpgStore, node: NodeId, direction: Direction, n: nat)
    requires
        n <= u64::MAX,
    ensures
        forall|i: int| #![trigger edges_among(store, node, direction, n)[i]]
            0 <= i < edges_among(store, node, direction, n).len() ==> edges_among(
                store,
                node,
                direction,
                n,
            )[i].1.0 < n,
        forall|i: int, j: int| #![trigger edges_among(store, node, direction, n)[i], edges_among(store, node, direction, n)[j]]
            0 <= i < j < edges_among(store, node, direction, n).len() ==> edges_among(
                store,
                node,
                direction,
                n,
            )[i].1.0 < edges_among(store, node, direction, n)[j].1.0,
    decreases n,
{
    if n > 0 {
        lemma_edges_ascend(store, node, direction, (n - 1) as nat);
        let rest = edges_among(store, node, direction, (n - 1) as nat);
        let all = edges_among(store, node, direction, n);
        assert(all == rest || (all.len() == rest.len() + 1 && all.last().1.0 == n - 1));
        assert forall|i: int| #![trigger all[i]] 0 <= i < rest.len() implies all[i] == rest[i]
            && all[i].1.0 < n - 1 by {
            assert(rest[i].1.0 < n - 1);
        }
        assert forall|i: int, j: int| #![trigger all[i], all[j]] 0 <= i < j < all.len() implies all[i].1.0
            < all[j].1.0 by {
            if j < rest.len() {
                assert(all[i] == rest[i] && all[j] == rest[j]);
            }
        }
    }
}

proof fn lemma_filter_ascends(ids: Seq<NodeId>, keep: spec_fn(NodeId) -> bool)
    requires
        forall|i: int, j: int| #![trigger ids[i], ids[j]]
            0 <= i < j < ids.len() ==> ids[i].0 < ids[j].0,
    ensures
        forall|i: int, j: int| #![trigger ids.filter(keep)[i], ids.filter(keep)[j]]
            0 <= i < j < ids.filter(keep).len() ==> ids.filter(keep)[i].0 < ids.filter(keep)[j].0,
    decreases ids.len(),
{
    reveal(Seq::filter);
    if ids.len() > 0 {
        let shorter = ids.drop_last();
        assert forall|i: int, j: int| #![trigger shorter[i], shorter[j]]
            0 <= i < j < shorter.len() implies shorter[i].0 < shorter[j].0 by {
            assert(ids[i].0 < ids[j].0);
        }
        lemma_filter_ascends(shorter, keep);
        let rest = shorter.filter(keep);
        assert forall|i: int| #![trigger rest[i]] 0 <= i < rest.len() implies rest[i].0
            < ids.last().0 by {
            lemma_filter_contains(shorter, keep, rest[i]);
            assert(rest.contains(rest[i]));
            let k = choose|k: int| 0 <= k < shorter.len() && shorter[k] == rest[i];
            assert(ids[k].0 < ids[ids.len() - 1].0);
        }
    }
}

impl GraphStore for LpgStore {
    open spec fn nodes(&self) -> Seq<NodeId> {
        self.first_ids(self.node_total()).filter(|id: NodeId| self.is_current(id))
    }

    open spec fn edges(&self, node: NodeId, direction: Direction) -> Seq<(NodeId, EdgeId)> {
        edges_among(self, node, direction, self.edge_total())
    }

    fn node_ids(&self) -> (r: Vec<NodeId>) {
        let mut out: Vec<NodeId> = Vec::new();
        let mut i: usize = 0;
        let ghost keep = |id: NodeId| self.is_current(id);
        proof {
            reveal(Seq::filter);
            assert(self.first_ids(0).filter(keep) =~= Seq::<NodeId>::empty());
        }
        while i < self.records.len()
            invariant
                i <= self.records@.len(),
                keep == (|id: NodeId| self.is_current(id)),
                out@ == self.first_ids(i as nat).filter(keep),
                forall|a: int| #![trigger out@[a]] 0 <= a < out@.len() ==> out@[a].0 < i,
                out@.no_duplicates(),
            decreases self.records.len() - i,
        {
            let id = NodeId(i as u64);
            proof {
                assert(self.first_ids((i + 1) as nat) =~= self.first_ids(i as nat).push(id));
                lemma_filter_push(self.first_ids(i as nat), id, keep);
            }
            if self.existed_at(id, self.epoch) {
                out.push(id);
            }
            i = i + 1;
        }
        out
    }

    fn edges_from(&self, node: NodeId, direction: Direction) -> (r: Vec<(NodeId, EdgeId)>) {
        let mut out: Vec<(NodeId, EdgeId)> = Vec::new();
        let mut i: usize = 0;
        while i < self.links.len()
            invariant
                i <= self.links@.len(),
                out@ == edges_among(self, node, direction, i as nat),
            decreases self.links.len() - i,
        {
            let link: &EdgeRecord = &self.links[i];
            match direction {
                Direction::Outgoing => {
                    if link.source == node {
                        out.push((link.target, EdgeId(i as u64)));
                    }
                },
                Direction::Incoming => {
                    if link.target == node {
                        out.push((link.source, EdgeId(i as u64)));
                    }
                },
            }
            i = i + 1;
        }
        out
    }
}

impl GraphStoreSearch for LpgStore {
    open spec fn labelled(&self, label: Seq<char>) -> Seq<NodeId> {
        self.first_ids(self.node_total()).filter(
            |id: NodeId| self.labels_at(id.0 as int).contains(label),
        )
    }

    open spec fn every_node(&self) -> Seq<NodeId> {
        self.first_ids(self.node_total())
    }

    open spec fn visible_at(&self, id: NodeId, epoch: EpochId) -> bool {
        self.has_node(id) && self.created_at(id.0 as int).0 <= epoch.0 && self.created_at(
            id.0 as int,
        ) != EpochId(PENDING_EPOCH)
    }

    open spec fn visible_to(&self, id: NodeId, epoch: EpochId, tx: TransactionId) -> bool {
        self.visible_at(id, epoch) || (self.has_node(id) && self.written_by(id.0 as int) == tx)
    }

    open spec fn labels_of(&self, id: NodeId) -> Option<Seq<Seq<char>>> {
        if self.has_node(id) {
            Some(self.labels_at(id.0 as int))
        } else {
            None
        }
    }

    fn nodes_by_label(&self, label: &str) -> (r: Vec<NodeId>) {
        let mut out: Vec<NodeId> = Vec::new();
        let mut i: usize = 0;
        let ghost keep = |id: NodeId| self.labels_at(id.0 as int).contains(label@);
        proof {
            reveal(Seq::filter);
            assert(self.first_ids(0).filter(keep) =~= Seq::<NodeId>::empty());
        }
        while i < self.records.len()
            invariant
                i <= self.records@.len(),
                keep == (|id: NodeId| self.labels_at(id.0 as int).contains(label@)),
                out@ == self.first_ids(i as nat).filter(keep),
            decreases self.records.len() - i,
        {
            let id = NodeId(i as u64);
            proof {
                assert(self.first_ids((i + 1) as nat) =~= self.first_ids(i as nat).push(id));
                lemma_filter_push(self.first_ids(i as nat), id, keep);
            }
            if contains_label(&self.records[i].labels, label) {
                out.push(id);
            }
            i = i + 1;
        }
        out
    }

    fn all_node_ids(&self) -> (r: Vec<NodeId>) {
        let mut out: Vec<NodeId> = Vec::new();
        let mut i: usize = 0;
        while i < self.records.len()
            invariant
                i <= self.records@.len(),
                out@ == self.first_ids(i as nat),
            decreases self.records.len() - i,
        {
            out.push(NodeId(i as u64));
            i = i + 1;
            assert(out@ =~= self.first_ids(i as nat));
        }
        out
    }

    fn filter_visible_node_ids(&self, ids: &Vec<NodeId>, epoch: EpochId) -> (r: Vec<NodeId>) {
        let mut out: Vec<NodeId> = Vec::new();
        let mut i: usize = 0;
        let ghost keep = |id: NodeId| self.visible_at(id, epoch);
        proof {
            reveal(Seq::filter);
            assert(ids@.take(0).filter(keep) =~= Seq::<NodeId>::empty());
        }
        while i < ids.len()
            invariant
                i <= ids@.len(),
                keep == (|id: NodeId| self.visible_at(id, epoch)),
                out@ == ids@.take(i as int).filter(keep),
            decreases ids.len() - i,
        {
            proof {
                assert(ids@.take(i + 1) =~= ids@.take(i as int).push(ids@[i as int]));
                lemma_filter_push(ids@.take(i as int), ids@[i as int], keep);
            }
            if self.existed_at(ids[i], epoch) {
                out.push(ids[i]);
            }
            i = i + 1;
        }
        assert(ids@.take(i as int) =~= ids@);
        out
    }

    fn filter_visible_node_ids_versioned(
        &self,
        ids: &Vec<NodeId>,
        epoch: EpochId,
        tx: TransactionId,
    ) -> (r: Vec<NodeId>) {
        let mut out: Vec<NodeId> = Vec::new();
        let mut i: usize = 0;
        let ghost keep = |id: NodeId| self.visible_to(id, epoch, tx);
        proof {
            reveal(Seq::filter);
            assert(ids@.take(0).filter(keep) =~= Seq::<NodeId>::empty());
        }
        while i < ids.len()
            invariant
                i <= ids@.len(),
                keep == (|id: NodeId| self.visible_to(id, epoch, tx)),
                out@ == ids@.take(i as int).filter(keep),
            decreases ids.len() - i,
        {
            proof {
                assert(ids@.take(i + 1) =~= ids@.take(i as int).push(ids@[i as int]));
                lemma_filter_push(ids@.take(i as int), ids@[i as int], keep);
            }
            let id: NodeId = ids[i];
            let own: bool = id.0 < self.records.len() as u64 && self.records[id.0 as usize].writer
                == tx;
            if self.existed_at(id, epoch) || own {
                out.push(id);
            }
            i = i + 1;
        }
        assert(ids@.take(i as int) =~= ids@);
        out
    }

    fn get_node(&self, id: NodeId) -> (r: Option<Node>) {
        if id.0 >= self.records.len() as u64 {
            return None;
        }
        let record: &NodeRecord = &self.records[id.0 as usize];
        let mut labels: Vec<String> = Vec::new();
        let mut i: usize = 0;
        while i < record.labels.len()
            invariant
                i <= record.labels@.len(),
                string_texts(labels@) == string_texts(record.labels@).take(i as int),
            decreases record.labels.len() - i,
        {
            let ghost before = labels@;
            let copy: String = record.labels[i].clone();
            labels.push(copy);
            i = i + 1;
            proof {
                assert(string_texts(labels@) =~= string_texts(before).push(copy@));
                assert(string_texts(labels@) =~= string_texts(record.labels@).take(i as int));
            }
        }
        assert(string_texts(record.labels@).take(i as int) =~= string_texts(record.labels@));
        Some(Node { labels })
    }
}

} // verus!
