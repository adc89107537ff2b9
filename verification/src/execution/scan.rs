//! Reading nodes from a store, chunk by chunk.

use std::sync::Arc;

use vstd::prelude::*;

use crate::graph::store::{law_nodes_are_listed, law_who_sees_a_node};
use crate::graph::store::{EpochId, GraphStoreSearch, LpgStore, Node, NodeId, TransactionId};

verus! {

/// How many nodes a chunk holds, unless told otherwise.
pub const DEFAULT_CHUNK_CAPACITY: usize = 2048;

/// A chunk of node ids.
#[derive(Debug)]
pub struct NodeChunk {
    ids: Vec<NodeId>,
}

impl View for NodeChunk {
    type V = Seq<NodeId>;

    closed spec fn view(&self) -> Seq<NodeId> {
        self.ids@
    }
}

impl NodeChunk {
    /// The number of rows.
    #[must_use]
    pub fn row_count(&self) -> (r: usize)
        ensures
            r == self@.len(),
    {
        self.ids.len()
    }

    /// The node of a row, or `None` past the end.
    #[must_use]
    pub fn get_node_id(&self, row: usize) -> (r: Option<NodeId>)
        ensures
            r == (if row < self@.len() {
                Some(self@[row as int])
            } else {
                None
            }),
    {
        if row < self.ids.len() {
            Some(self.ids[row])
        } else {
            None
        }
    }
}

/// The ids that a scan starts from: the ones it is pinned to, those with the
/// label, or all. With an epoch to look at, all means uncommitted ones too.
pub open spec fn candidates<S: GraphStoreSearch>(
    store: &S,
    label: Option<Seq<char>>,
    pinned: Option<Seq<NodeId>>,
    epoch: Option<EpochId>,
) -> Seq<NodeId> {
    match pinned {
        Some(ids) => ids,
        None => match label {
            Some(l) => store.labelled(l),
            None => if epoch is Some {
                store.every_node()
            } else {
                store.nodes()
            },
        },
    }
}

/// The candidates that the transaction sees.
pub open spec fn visible_among<S: GraphStoreSearch>(
    store: &S,
    ids: Seq<NodeId>,
    epoch: Option<EpochId>,
    tx: Option<TransactionId>,
) -> Seq<NodeId> {
    match (epoch, tx) {
        (Some(e), Some(t)) => ids.filter(|id: NodeId| store.visible_to(id, e, t)),
        (Some(e), None) => ids.filter(|id: NodeId| store.visible_at(id, e)),
        (None, _) => ids,
    }
}

/// Whether an id that a scan is pinned to belongs to a node with the label.
pub open spec fn pinned_matches<S: GraphStoreSearch>(
    store: &S,
    label: Option<Seq<char>>,
    id: NodeId,
) -> bool {
    store.labels_of(id) matches Some(labels) && (label matches Some(l) ==> labels.contains(l))
}

/// All nodes that a scan yields, in order.
pub open spec fn scan_result<S: GraphStoreSearch>(
    store: &S,
    label: Option<Seq<char>>,
    pinned: Option<Seq<NodeId>>,
    epoch: Option<EpochId>,
    tx: Option<TransactionId>,
) -> Seq<NodeId> {
    let visible = visible_among(store, candidates(store, label, pinned, epoch), epoch, tx);
    if pinned is Some {
        visible.filter(|id: NodeId| pinned_matches(store, label, id))
    } else {
        visible
    }
}

/// How often an id occurs.
pub open spec fn occurrences(ids: Seq<NodeId>, id: NodeId) -> nat
    decreases ids.len(),
{
    if ids.len() == 0 {
        0
    } else {
        occurrences(ids.drop_last(), id) + if ids.last() == id {
            1nat
        } else {
            0nat
        }
    }
}

/// Whether the ids of `part` stand in `whole` in the same order.
pub open spec fn in_order_of(part: Seq<NodeId>, whole: Seq<NodeId>) -> bool
    decreases whole.len(),
{
    if part.len() == 0 {
        true
    } else if whole.len() == 0 {
        false
    } else if part.last() == whole.last() {
        in_order_of(part.drop_last(), whole.drop_last())
    } else {
        in_order_of(part, whole.drop_last())
    }
}

/// Leaving ids out keeps the order of the others and how often each occurs.
proof fn lemma_filter(ids: Seq<NodeId>, keep: spec_fn(NodeId) -> bool)
    ensures
        forall|id: NodeId| #[trigger]
            occurrences(ids.filter(keep), id) == if keep(id) {
                occurrences(ids, id)
            } else {
                0
            },
        in_order_of(ids.filter(keep), ids),
    decreases ids.len(),
{
    reveal(Seq::filter);
    if ids.len() > 0 {
        let shorter = ids.drop_last();
        lemma_filter(shorter, keep);
        let kept = shorter.filter(keep);
        if keep(ids.last()) {
            assert(kept.push(ids.last()).drop_last() =~= kept);
        } else if kept.len() > 0 && kept.last() == ids.last() {
            shorter.lemma_filter_pred(keep, kept.len() - 1);
        }
        assert forall|id: NodeId| #[trigger]
            occurrences(ids.filter(keep), id) == if keep(id) {
                occurrences(ids, id)
            } else {
                0
            } by {
            assert(occurrences(kept, id) == if keep(id) {
                occurrences(shorter, id)
            } else {
                0
            });
        }
    }
}

/// What occurs is there, and what is not there does not occur.
proof fn lemma_occurrences(ids: Seq<NodeId>, id: NodeId)
    ensures
        occurrences(ids, id) > 0 <==> ids.contains(id),
    decreases ids.len(),
{
    if ids.len() > 0 {
        let shorter = ids.drop_last();
        lemma_occurrences(shorter, id);
        if shorter.contains(id) {
            let k = choose|k: int| 0 <= k < shorter.len() && shorter[k] == id;
            assert(ids[k] == id);
        }
        if ids.contains(id) && ids.last() != id {
            let k = choose|k: int| 0 <= k < ids.len() && ids[k] == id;
            assert(shorter[k] == id);
        }
        if ids.last() == id {
            assert(ids[ids.len() - 1] == id);
        }
    }
}

proof fn lemma_in_order_of_itself(ids: Seq<NodeId>)
    ensures
        in_order_of(ids, ids),
    decreases ids.len(),
{
    if ids.len() > 0 {
        lemma_in_order_of_itself(ids.drop_last());
    }
}

proof fn lemma_in_order_transitive(a: Seq<NodeId>, b: Seq<NodeId>, c: Seq<NodeId>)
    requires
        in_order_of(a, b),
        in_order_of(b, c),
    ensures
        in_order_of(a, c),
    decreases c.len(),
{
    if a.len() > 0 && b.len() > 0 && c.len() > 0 {
        if b.last() == c.last() {
            if a.last() == b.last() {
                lemma_in_order_transitive(a.drop_last(), b.drop_last(), c.drop_last());
            } else {
                lemma_in_order_transitive(a, b.drop_last(), c.drop_last());
            }
        } else {
            lemma_in_order_transitive(a, b, c.drop_last());
            if a.last() == c.last() {
                lemma_in_order_shorter(a, c.drop_last());
            }
        }
    }
}

proof fn lemma_in_order_shorter(a: Seq<NodeId>, c: Seq<NodeId>)
    requires
        in_order_of(a, c),
        a.len() > 0,
    ensures
        in_order_of(a.drop_last(), c),
    decreases c.len(),
{
    if a.last() == c.last() {
        let shorter = a.drop_last();
        if shorter.len() > 0 && shorter.last() == c.last() {
            lemma_in_order_shorter(shorter, c.drop_last());
        }
    } else {
        lemma_in_order_shorter(a, c.drop_last());
        let shorter = a.drop_last();
        if shorter.len() > 0 && shorter.last() == c.last() {
            lemma_in_order_shorter(shorter, c.drop_last());
        }
    }
}

/// Reads nodes from a store.
pub struct ScanOperator<S: GraphStoreSearch> {
    store: Arc<S>,
    label: Option<String>,
    pinned_ids: Option<Vec<NodeId>>,
    position: usize,
    batch: Vec<NodeId>,
    exhausted: bool,
    chunk_capacity: usize,
    transaction_id: Option<TransactionId>,
    viewing_epoch: Option<EpochId>,
}

impl<S: GraphStoreSearch> ScanOperator<S> {
    /// The store that is read.
    pub closed spec fn source(&self) -> S {
        *self.store
    }

    /// The label that nodes must have.
    pub closed spec fn label_filter(&self) -> Option<Seq<char>> {
        match self.label {
            Some(l) => Some(l@),
            None => None,
        }
    }

    /// The ids that the scan is pinned to.
    pub closed spec fn pinned(&self) -> Option<Seq<NodeId>> {
        match self.pinned_ids {
            Some(ids) => Some(ids@),
            None => None,
        }
    }

    /// The epoch that is looked at.
    pub closed spec fn epoch(&self) -> Option<EpochId> {
        self.viewing_epoch
    }

    /// The transaction that looks.
    pub closed spec fn transaction(&self) -> Option<TransactionId> {
        self.transaction_id
    }

    /// How many nodes a chunk holds.
    pub closed spec fn capacity(&self) -> usize {
        self.chunk_capacity
    }

    /// All nodes that the scan yields.
    pub open spec fn result(&self) -> Seq<NodeId> {
        scan_result(
            &self.source(),
            self.label_filter(),
            self.pinned(),
            self.epoch(),
            self.transaction(),
        )
    }

    /// The nodes that are still to be yielded.
    pub closed spec fn remaining(&self) -> Seq<NodeId> {
        if self.not_started() {
            self.result()
        } else {
            self.batch@.skip(self.position as int)
        }
    }

    /// Whether the store has not been asked yet.
    pub closed spec fn not_started(&self) -> bool {
        self.batch@.len() == 0 && !self.exhausted
    }

    /// The position is among the nodes that were loaded, and a scan that found
    /// none has none.
    pub closed spec fn well_formed(&self) -> bool {
        &&& self.exhausted ==> self.batch@.len() == 0
        &&& self.position <= self.batch@.len()
    }

    /// Two scans that are set up alike.
    pub open spec fn same_setup(&self, other: &Self) -> bool {
        &&& self.source() == other.source()
        &&& self.label_filter() == other.label_filter()
        &&& self.pinned() == other.pinned()
        &&& self.epoch() == other.epoch()
        &&& self.transaction() == other.transaction()
        &&& self.capacity() == other.capacity()
    }

    /// What a scan that is pinned to no ids yields. With an epoch and a transaction it
    /// is each node that the transaction sees at that epoch; with an epoch alone, each
    /// that is visible then; without an epoch, each that exists now. With a label only
    /// nodes with the label count, uncommitted ones too. Nodes come in the order of the
    /// store, and as often as it lists them.
    pub proof fn law_scan_yields_what_is_visible(&self, id: NodeId)
        requires
            self.pinned() is None,
        ensures
            ({
                let store = self.source();
                let listed = match self.label_filter() {
                    Some(l) => store.labelled(l),
                    None => if self.epoch() is Some {
                        store.every_node()
                    } else {
                        store.nodes()
                    },
                };
                &&& (self.epoch() matches Some(e) && self.transaction() matches Some(t)) ==> (
                self.result().contains(id) <==> listed.contains(id) && store.visible_to(
                    id,
                    self.epoch()->0,
                    self.transaction()->0,
                ))
                &&& (self.epoch() is Some && self.transaction() is None) ==> (
                self.result().contains(id) <==> listed.contains(id) && store.visible_at(
                    id,
                    self.epoch()->0,
                ))
                &&& self.epoch() is None ==> self.result() == listed
                &&& self.result().contains(id) ==> occurrences(self.result(), id) == occurrences(
                    listed,
                    id,
                )
                &&& in_order_of(self.result(), listed)
            }),
    {
        let store = self.source();
        let listed = candidates(&store, self.label_filter(), self.pinned(), self.epoch());
        lemma_occurrences(listed, id);
        lemma_occurrences(self.result(), id);
        if self.epoch() is Some {
            let e = self.epoch()->0;
            if self.transaction() is Some {
                let t = self.transaction()->0;
                lemma_filter(listed, |n: NodeId| store.visible_to(n, e, t));
            } else {
                lemma_filter(listed, |n: NodeId| store.visible_at(n, e));
            }
        } else {
            lemma_in_order_of_itself(listed);
        }
    }

    /// What a scan that is pinned to ids yields: of those ids each that has a node, has
    /// the label if one is asked for, and is visible if an epoch is looked at. They come
    /// in the order in which they were given, and as often.
    pub proof fn law_pinned_scan_yields_matching_ids(&self, id: NodeId)
        requires
            self.pinned() is Some,
        ensures
            ({
                let store = self.source();
                let seen = if self.epoch() is None {
                    true
                } else if self.transaction() is Some {
                    store.visible_to(id, self.epoch()->0, self.transaction()->0)
                } else {
                    store.visible_at(id, self.epoch()->0)
                };
                &&& self.result().contains(id) <==> {
                    &&& self.pinned()->0.contains(id)
                    &&& seen
                    &&& store.labels_of(id) is Some
                    &&& self.label_filter() is Some ==> store.labels_of(id)->0.contains(
                        self.label_filter()->0,
                    )
                }
                &&& self.result().contains(id) ==> occurrences(self.result(), id) == occurrences(
                    self.pinned()->0,
                    id,
                )
                &&& in_order_of(self.result(), self.pinned()->0)
            }),
    {
        let store = self.source();
        let label = self.label_filter();
        let ids = self.pinned()->0;
        let visible = visible_among(&store, ids, self.epoch(), self.transaction());
        if self.epoch() is Some {
            let e = self.epoch()->0;
            if self.transaction() is Some {
                let t = self.transaction()->0;
                lemma_filter(ids, |n: NodeId| store.visible_to(n, e, t));
            } else {
                lemma_filter(ids, |n: NodeId| store.visible_at(n, e));
            }
        } else {
            lemma_in_order_of_itself(ids);
        }
        lemma_filter(visible, |n: NodeId| pinned_matches(&store, label, n));
        lemma_occurrences(ids, id);
        lemma_occurrences(visible, id);
        lemma_occurrences(self.result(), id);
        lemma_in_order_transitive(self.result(), visible, ids);
    }

    /// Creates a scan of all nodes.
    pub fn new(store: Arc<S>) -> (r: Self)
        ensures
            r.well_formed(),
            r.source() == *store,
            r.label_filter() is None,
            r.pinned() is None,
            r.epoch() is None,
            r.transaction() is None,
            r.capacity() == DEFAULT_CHUNK_CAPACITY,
            r.not_started(),
            r.remaining() == r.result(),
    {
        Self {
            store,
            label: None,
            pinned_ids: None,
            position: 0,
            batch: Vec::new(),
            exhausted: false,
            chunk_capacity: DEFAULT_CHUNK_CAPACITY,
            transaction_id: None,
            viewing_epoch: None,
        }
    }

    /// Creates a scan of the nodes with a label.
    pub fn with_label(store: Arc<S>, label: &str) -> (r: Self)
        ensures
            r.well_formed(),
            r.source() == *store,
            r.label_filter() == Some(label@),
            r.pinned() is None,
            r.epoch() is None,
            r.transaction() is None,
            r.capacity() == DEFAULT_CHUNK_CAPACITY,
            r.not_started(),
            r.remaining() == r.result(),
    {
        Self {
            store,
            label: Some(label.to_owned()),
            pinned_ids: None,
            position: 0,
            batch: Vec::new(),
            exhausted: false,
            chunk_capacity: DEFAULT_CHUNK_CAPACITY,
            transaction_id: None,
            viewing_epoch: None,
        }
    }

    /// Creates a scan of the given ids, in their order. Ids without a node, and
    /// nodes without the label, are skipped.
    pub fn with_node_ids(store: Arc<S>, ids: Vec<NodeId>, label: Option<String>) -> (r: Self)
        ensures
            r.well_formed(),
            r.source() == *store,
            r.label_filter() == match label {
                Some(l) => Some(l@),
                None => None,
            },
            r.pinned() == Some(ids@),
            r.epoch() is None,
            r.transaction() is None,
            r.capacity() == DEFAULT_CHUNK_CAPACITY,
            r.not_started(),
            r.remaining() == r.result(),
    {
        Self {
            store,
            label,
            pinned_ids: Some(ids),
            position: 0,
            batch: Vec::new(),
            exhausted: false,
            chunk_capacity: DEFAULT_CHUNK_CAPACITY,
            transaction_id: None,
            viewing_epoch: None,
        }
    }

    /// Sets how many nodes a chunk holds.
    pub fn with_chunk_capacity(self, capacity: usize) -> (r: Self)
        requires
            self.well_formed(),
        ensures
            r.well_formed(),
            r.capacity() == capacity,
            r.source() == self.source(),
            r.label_filter() == self.label_filter(),
            r.pinned() == self.pinned(),
            r.epoch() == self.epoch(),
            r.transaction() == self.transaction(),
            r.not_started() == self.not_started(),
            r.remaining() == self.remaining(),
    {
        let mut r = self;
        r.chunk_capacity = capacity;
        r
    }

    /// Sets what the scan looks at: only nodes that are visible at the epoch, and
    /// to the transaction if there is one. A scan that has started goes on with
    /// what it found.
    pub fn with_transaction_context(
        self,
        epoch: EpochId,
        transaction_id: Option<TransactionId>,
    ) -> (r: Self)
        requires
            self.well_formed(),
        ensures
            r.well_formed(),
            r.not_started() == self.not_started(),
            r.epoch() == Some(epoch),
            r.transaction() == transaction_id,
            r.source() == self.source(),
            r.label_filter() == self.label_filter(),
            r.pinned() == self.pinned(),
            r.capacity() == self.capacity(),
            r.remaining() == if self.not_started() {
                r.result()
            } else {
                self.remaining()
            },
    {
        let mut r = self;
        r.viewing_epoch = Some(epoch);
        r.transaction_id = transaction_id;
        r
    }

    /// Finds the nodes that the scan yields, unless that was done already.
    fn load_batch(&mut self)
        requires
            old(self).well_formed(),
        ensures
            final(self).well_formed(),
            final(self).same_setup(old(self)),
            final(self).remaining() == old(self).remaining(),
            !final(self).not_started(),
    {
        if self.batch.len() != 0 || self.exhausted {
            return;
        }
        let all_ids: Vec<NodeId> = match &self.pinned_ids {
            Some(pinned) => {
                let copy: Vec<NodeId> = pinned.clone();
                assert(copy@ =~= pinned@);
                copy
            },
            None => match &self.label {
                Some(label) => self.store.nodes_by_label(label.as_str()),
                None => {
                    if self.viewing_epoch.is_some() {
                        self.store.all_node_ids()
                    } else {
                        self.store.node_ids()
                    }
                },
            },
        };
        assert(all_ids@ == candidates(
            &self.source(),
            self.label_filter(),
            self.pinned(),
            self.epoch(),
        ));
        let visible: Vec<NodeId> = match self.viewing_epoch {
            Some(epoch) => match self.transaction_id {
                Some(tx) => self.store.filter_visible_node_ids_versioned(&all_ids, epoch, tx),
                None => self.store.filter_visible_node_ids(&all_ids, epoch),
            },
            None => all_ids,
        };
        let batch: Vec<NodeId> = if self.pinned_ids.is_some() {
            self.keep_matching(visible)
        } else {
            visible
        };
        assert(batch@ == self.result());
        if batch.len() == 0 {
            self.exhausted = true;
        }
        self.batch = batch;
        assert(self.batch@.skip(0) =~= self.batch@);
    }

    /// The ids of nodes that exist and have the label.
    fn keep_matching(&self, ids: Vec<NodeId>) -> (r: Vec<NodeId>)
        ensures
            r@ == ids@.filter(
                |id: NodeId| pinned_matches(&self.source(), self.label_filter(), id),
            ),
    {
        let ghost keep = |id: NodeId| pinned_matches(&self.source(), self.label_filter(), id);
        let mut out: Vec<NodeId> = Vec::new();
        let mut i: usize = 0;
        proof {
            reveal(Seq::filter);
            assert(ids@.take(0).filter(keep) =~= Seq::<NodeId>::empty());
        }
        while i < ids.len()
            invariant
                i <= ids@.len(),
                keep == (|id: NodeId|
                    pinned_matches(&self.source(), self.label_filter(), id)),
                out@ == ids@.take(i as int).filter(keep),
            decreases ids.len() - i,
        {
            let id: NodeId = ids[i];
            proof {
                reveal(Seq::filter);
                assert(ids@.take(i + 1).drop_last() =~= ids@.take(i as int));
                assert(ids@.take(i + 1).last() == id);
            }
            let node: Option<Node> = self.store.get_node(id);
            let wanted: bool = match &node {
                Some(n) => match &self.label {
                    Some(label) => n.has_label(label.as_str()),
                    None => true,
                },
                None => false,
            };
            assert(wanted == keep(id));
            if wanted {
                out.push(id);
            }
            i = i + 1;
        }
        assert(ids@.take(i as int) =~= ids@);
        out
    }

    /// The next chunk, with as many of the remaining nodes as it holds. `None`
    /// when no node remains.
    pub fn next(&mut self) -> (r: Option<NodeChunk>)
        requires
            old(self).well_formed(),
        ensures
            final(self).well_formed(),
            final(self).same_setup(old(self)),
            !final(self).not_started(),
            match r {
                Some(chunk) => {
                    &&& old(self).remaining().len() > 0
                    &&& chunk@.len() == if old(self).capacity() <= old(self).remaining().len() {
                        old(self).capacity() as int
                    } else {
                        old(self).remaining().len() as int
                    }
                    &&& chunk@ + final(self).remaining() == old(self).remaining()
                },
                None => old(self).remaining().len() == 0 && final(self).remaining().len() == 0,
            },
    {
        self.load_batch();
        if self.exhausted || self.position >= self.batch.len() {
            return None;
        }
        let left: usize = self.batch.len() - self.position;
        let count: usize = if self.chunk_capacity <= left {
            self.chunk_capacity
        } else {
            left
        };
        let end: usize = self.position + count;
        let mut ids: Vec<NodeId> = Vec::new();
        let mut i: usize = self.position;
        while i < end
            invariant
                self.position <= i <= end <= self.batch@.len(),
                ids@ == self.batch@.subrange(self.position as int, i as int),
            decreases end - i,
        {
            ids.push(self.batch[i]);
            i = i + 1;
            assert(ids@ =~= self.batch@.subrange(self.position as int, i as int));
        }
        assert(ids@ + self.batch@.skip(end as int) =~= self.batch@.skip(self.position as int));
        self.position = end;
        Some(NodeChunk { ids })
    }

    /// Starts over.
    pub fn reset(&mut self)
        ensures
            final(self).well_formed(),
            final(self).not_started(),
            final(self).same_setup(old(self)),
            final(self).remaining() == final(self).result(),
    {
        self.position = 0;
        self.batch.clear();
        self.exhausted = false;
    }

    /// The operator's name.
    pub fn name(&self) -> (r: &'static str)
        ensures
            r@ == "Scan"@,
    {
        "Scan"
    }
}

/// A transaction sees its own work: a scan of the store by label, under an epoch and a
/// transaction, yields each node with the label that the transaction wrote itself,
/// committed or not, and no node that another transaction has not committed.
pub proof fn law_scan_sees_own_writes(
    scan: ScanOperator<LpgStore>,
    label: Seq<char>,
    epoch: EpochId,
    tx: TransactionId,
    id: NodeId,
)
    requires
        scan.pinned() is None,
        scan.label_filter() == Some(label),
        scan.epoch() == Some(epoch),
        scan.transaction() == Some(tx),
        scan.source().has_node(id),
        scan.source().labels_at(id.0 as int).contains(label),
    ensures
        scan.source().written_by(id.0 as int) == tx ==> scan.result().contains(id),
        scan.source().written_by(id.0 as int) != tx && scan.source().created_at(id.0 as int)
            == EpochId(0xffff_ffff_ffff_ffff) ==> !scan.result().contains(id),
        scan.source().written_by(id.0 as int) != tx && scan.source().created_at(id.0 as int).0
            > epoch.0 ==> !scan.result().contains(id),
        scan.source().created_at(id.0 as int).0 <= epoch.0 && scan.source().created_at(
            id.0 as int,
        ) != EpochId(0xffff_ffff_ffff_ffff) ==> scan.result().contains(id),
{
    scan.law_scan_yields_what_is_visible(id);
    law_nodes_are_listed(scan.source(), label, id);
    law_who_sees_a_node(scan.source(), id, epoch, tx);
}

} // verus!
