//! Transaction-aware buffering of index writes.
//!
//! Row changes are queued here while a transaction runs. When the transaction
//! is about to commit the queue is handed out, grouped per index, so that the
//! operations can be written; when it aborts the queue is dropped. Nothing in
//! this module touches an index itself.

use vstd::prelude::*;

use crate::vecs::reversed;

verus! {

/// A single pending index operation.
#[derive(Clone, Debug)]
pub enum PendingOp {
    /// Add a document with primary key and content.
    Add { pk: i64, content: String },
    /// Delete every document with this primary key.
    Delete { pk: i64 },
}

/// The mathematical value of a [`PendingOp`].
pub enum PendingOpView {
    Add { pk: i64, content: Seq<char> },
    Delete { pk: i64 },
}

impl View for PendingOp {
    type V = PendingOpView;

    open spec fn view(&self) -> PendingOpView {
        match self {
            PendingOp::Add { pk, content } => PendingOpView::Add { pk: *pk, content: content@ },
            PendingOp::Delete { pk } => PendingOpView::Delete { pk: *pk },
        }
    }
}

/// An index is named by its table and its column.
pub type IndexKeyView = (Seq<char>, Seq<char>);

/// One entry of the transaction's queue: the operation and the index it is for.
pub type QueuedView = (IndexKeyView, PendingOpView);

/// The operations queued for `key`, in the order in which they were queued.
pub open spec fn ops_for(log: Seq<QueuedView>, key: IndexKeyView) -> Seq<PendingOpView>
    decreases log.len(),
{
    if log.len() == 0 {
        seq![]
    } else {
        let rest = ops_for(log.drop_last(), key);
        if log.last().0 == key {
            rest.push(log.last().1)
        } else {
            rest
        }
    }
}

/// The indexes that have queued operations, each once, in the order of their
/// first operation.
pub open spec fn keys_in_order(log: Seq<QueuedView>) -> Seq<IndexKeyView>
    decreases log.len(),
{
    if log.len() == 0 {
        seq![]
    } else {
        let keys = keys_in_order(log.drop_last());
        if keys.contains(log.last().0) {
            keys
        } else {
            keys.push(log.last().0)
        }
    }
}

/// What a commit writes: for each index with queued operations, those
/// operations in queue order.
pub open spec fn batches_of(log: Seq<QueuedView>) -> Seq<(IndexKeyView, Seq<PendingOpView>)> {
    keys_in_order(log).map_values(|k: IndexKeyView| (k, ops_for(log, k)))
}

/// The abstract state of a transaction's write buffer.
pub struct WriterModel {
    /// Every operation queued since the last commit or abort, oldest first.
    pub log: Seq<QueuedView>,
    /// Whether commit and abort callbacks are registered for this transaction.
    pub callbacks_registered: bool,
}

impl WriterModel {
    /// The buffer at the start of a transaction.
    pub open spec fn initial() -> WriterModel {
        WriterModel { log: seq![], callbacks_registered: false }
    }

    /// The buffer after `op` is queued for `key`.
    pub open spec fn queued(self, key: IndexKeyView, op: PendingOpView) -> WriterModel {
        WriterModel { log: self.log.push((key, op)), callbacks_registered: true }
    }
}

/// A queued operation together with the index it belongs to.
#[derive(Debug)]
pub struct QueuedOp {
    pub table_name: String,
    pub column_name: String,
    pub op: PendingOp,
}

impl View for QueuedOp {
    type V = QueuedView;

    open spec fn view(&self) -> QueuedView {
        ((self.table_name@, self.column_name@), self.op@)
    }
}

/// The operations to write to one index at commit.
#[derive(Debug)]
pub struct IndexBatch {
    pub table_name: String,
    pub column_name: String,
    pub ops: Vec<PendingOp>,
}

impl View for IndexBatch {
    type V = (IndexKeyView, Seq<PendingOpView>);

    open spec fn view(&self) -> (IndexKeyView, Seq<PendingOpView>) {
        ((self.table_name@, self.column_name@), self.ops@.map_values(|o: PendingOp| o@))
    }
}

/// The view of a list of batches.
pub open spec fn batches_view(batches: Seq<IndexBatch>) -> Seq<(IndexKeyView, Seq<PendingOpView>)> {
    batches.map_values(|b: IndexBatch| b@)
}

/// The per-backend write buffer: the pending operations of the current
/// transaction and whether its commit/abort callbacks are registered.
pub struct WriterState {
    queue: Vec<QueuedOp>,
    callbacks_registered: bool,
}

impl View for WriterState {
    type V = WriterModel;

    closed spec fn view(&self) -> WriterModel {
        WriterModel {
            log: self.queue@.map_values(|q: QueuedOp| q@),
            callbacks_registered: self.callbacks_registered,
        }
    }
}

impl WriterState {
    /// An empty buffer with no callbacks registered.
    pub fn new() -> (s: WriterState)
        ensures
            s@ == WriterModel::initial(),
    {
        let s = WriterState { queue: Vec::new(), callbacks_registered: false };
        assert(s@.log =~= seq![]);
        s
    }

    /// Whether no operation is pending.
    pub fn is_empty(&self) -> (b: bool)
        ensures
            b == (self@.log.len() == 0),
    {
        self.queue.len() == 0
    }
}

/// Decides whether the transaction callbacks must be registered now: they
/// are registered once per transaction, by the first queued operation.
/// Marks them as registered.
pub fn ensure_callbacks_registered(state: &mut WriterState) -> (register_now: bool)
    ensures
        register_now == !old(state)@.callbacks_registered,
        final(state)@ == (WriterModel { callbacks_registered: true, ..old(state)@ }),
{
    let register_now = !state.callbacks_registered;
    state.callbacks_registered = true;
    proof {
        assert(final(state)@.log =~= old(state)@.log);
    }
    register_now
}

fn push_op(state: &mut WriterState, table_name: &str, column_name: &str, op: PendingOp)
    requires
        old(state)@.callbacks_registered,
    ensures
        final(state)@ == old(state)@.queued((table_name@, column_name@), op@),
{
    let q = QueuedOp { table_name: table_name.to_owned(), column_name: column_name.to_owned(), op };
    state.queue.push(q);
    proof {
        assert(final(state)@.log =~= old(state)@.log.push((
            (table_name@, column_name@),
            op@,
        )));
    }
}

/// Queues an add operation for the current transaction. It is applied when
/// the transaction commits and discarded if the transaction aborts.
/// Returns whether the transaction callbacks must be registered now.
pub fn queue_add(
    state: &mut WriterState,
    table_name: &str,
    column_name: &str,
    pk: i64,
    content: String,
) -> (register_now: bool)
    ensures
        register_now == !old(state)@.callbacks_registered,
        final(state)@ == old(state)@.queued(
            (table_name@, column_name@),
            PendingOpView::Add { pk, content: content@ },
        ),
{
    let register_now = ensure_callbacks_registered(state);
    push_op(state, table_name, column_name, PendingOp::Add { pk, content });
    register_now
}

/// Queues a delete operation for the current transaction. It is applied when
/// the transaction commits and discarded if the transaction aborts.
/// Returns whether the transaction callbacks must be registered now.
pub fn queue_delete(state: &mut WriterState, table_name: &str, column_name: &str, pk: i64) -> (register_now: bool)
    ensures
        register_now == !old(state)@.callbacks_registered,
        final(state)@ == old(state)@.queued(
            (table_name@, column_name@),
            PendingOpView::Delete { pk },
        ),
{
    let register_now = ensure_callbacks_registered(state);
    push_op(state, table_name, column_name, PendingOp::Delete { pk });
    register_now
}

proof fn lemma_ops_for_push(log: Seq<QueuedView>, e: QueuedView, key: IndexKeyView)
    ensures
        ops_for(log.push(e), key) == (if e.0 == key {
            ops_for(log, key).push(e.1)
        } else {
            ops_for(log, key)
        }),
{
    assert(log.push(e).drop_last() =~= log);
}

proof fn lemma_keys_push(log: Seq<QueuedView>, e: QueuedView)
    ensures
        keys_in_order(log.push(e)) == (if keys_in_order(log).contains(e.0) {
            keys_in_order(log)
        } else {
            keys_in_order(log).push(e.0)
        }),
{
    assert(log.push(e).drop_last() =~= log);
}

/// Each index occurs once among the keys in order.
pub proof fn lemma_keys_distinct(log: Seq<QueuedView>)
    ensures
        keys_in_order(log).no_duplicates(),
    decreases log.len(),
{
    if log.len() > 0 {
        lemma_keys_distinct(log.drop_last());
        let keys = keys_in_order(log.drop_last());
        if !keys.contains(log.last().0) {
            assert forall|i: int, j: int|
                0 <= i < keys.push(log.last().0).len() && 0 <= j < keys.push(log.last().0).len()
                    && i != j implies keys.push(log.last().0)[i] != keys.push(
                log.last().0,
            )[j] by {
                if i < keys.len() && j < keys.len() {
                } else if i < keys.len() {
                    assert(keys.contains(keys[i]));
                } else {
                    assert(keys.contains(keys[j]));
                }
            }
        }
    }
}

/// Groups the queue per index, keeping the queue order within each index.
fn group_by_index(queue: Vec<QueuedOp>) -> (batches: Vec<IndexBatch>)
    ensures
        batches_view(batches@) == batches_of(queue@.map_values(|q: QueuedOp| q@)),
{
    let ghost log = queue@.map_values(|q: QueuedOp| q@);
    let mut groups: Vec<IndexBatch> = Vec::new();
    let n = queue.len();
    let mut k: usize = 0;
    // Visit the queue from the front while moving each operation out of it.
    let mut reversed = reversed(queue);
    while k < n
        invariant
            k <= n,
            n == log.len(),
            reversed.len() == n - k,
            forall|i: int|
                0 <= i < reversed.len() ==> #[trigger] reversed@[i]@ == log[n - 1 - i],
            groups.len() == keys_in_order(log.take(k as int)).len(),
            forall|j: int|
                0 <= j < groups.len() ==> #[trigger] groups@[j]@ == (
                    keys_in_order(log.take(k as int))[j],
                    ops_for(log.take(k as int), keys_in_order(log.take(k as int))[j]),
                ),
        decreases n - k,
    {
        let q = reversed.pop().unwrap();
        let ghost p = log.take(k as int);
        let ghost e = log[k as int];
        assert(q@ == e);
        assert(log.take(k + 1) =~= p.push(e));
        proof {
            lemma_ops_for_push(p, e, e.0);
            lemma_keys_push(p, e);
            lemma_keys_distinct(p);
        }
        let QueuedOp { table_name, column_name, op } = q;
        let mut j: usize = 0;
        let mut found = false;
        while j < groups.len()
            invariant_except_break
                !found,
            invariant
                j <= groups.len(),
                groups.len() == keys_in_order(p).len(),
                forall|t: int| 0 <= t < groups.len() ==> #[trigger] groups@[t]@.0 == keys_in_order(p)[t],
                forall|t: int| 0 <= t < j ==> keys_in_order(p)[t] != e.0,
                e.0 == (table_name@, column_name@),
            ensures
                found ==> j < groups.len() && keys_in_order(p)[j as int] == e.0,
                !found ==> forall|t: int| 0 <= t < groups.len() ==> keys_in_order(p)[t] != e.0,
            decreases groups.len() - j,
        {
            if groups[j].table_name == table_name && groups[j].column_name == column_name {
                assert(groups@[j as int]@.0 == (groups@[j as int].table_name@, groups@[j as int].column_name@));
                assert(groups@[j as int]@.0 == e.0);
                found = true;
                break;
            }
            assert(groups@[j as int]@.0 == (groups@[j as int].table_name@, groups@[j as int].column_name@));
            assert(keys_in_order(p)[j as int] != e.0);
            j = j + 1;
        }
        let ghost old_groups = groups@;
        if found {
            groups[j].ops.push(op);
            proof {
                assert(groups@[j as int].ops@ == old_groups[j as int].ops@.push(op));
                assert(groups@[j as int].table_name == old_groups[j as int].table_name);
                assert(forall|t: int| 0 <= t < groups.len() && t != j ==> groups@[t] == old_groups[t]);
                assert(keys_in_order(p)[j as int] == e.0);
                assert(keys_in_order(p).contains(e.0));
                assert(keys_in_order(log.take(k + 1)) == keys_in_order(p));
                assert(op@ == e.1);
                assert forall|t: int| 0 <= t < groups.len() implies #[trigger] groups@[t]@ == (
                    keys_in_order(log.take(k + 1))[t],
                    ops_for(log.take(k + 1), keys_in_order(log.take(k + 1))[t]),
                ) by {
                    lemma_ops_for_push(p, e, keys_in_order(p)[t]);
                    if t == j {
                        assert(groups@[t].ops@.map_values(|o: PendingOp| o@) =~= old_groups[t].ops@.map_values(|o: PendingOp| o@).push(e.1));
                        assert(old_groups[t]@.1 == ops_for(p, e.0));
                        assert(ops_for(log.take(k + 1), e.0) == ops_for(p, e.0).push(e.1));
                        assert(groups@[t]@.0 == e.0);
                    } else {
                        assert(keys_in_order(p)[t] != keys_in_order(p)[j as int]);
                        assert(groups@[t] == old_groups[t]);
                    }
                }
            }
        } else {
            assert(!keys_in_order(p).contains(e.0));
            let mut ops: Vec<PendingOp> = Vec::new();
            ops.push(op);
            groups.push(IndexBatch { table_name, column_name, ops });
            proof {
                assert forall|t: int| 0 <= t < groups.len() implies #[trigger] groups@[t]@ == (
                    keys_in_order(log.take(k + 1))[t],
                    ops_for(log.take(k + 1), keys_in_order(log.take(k + 1))[t]),
                ) by {
                    lemma_ops_for_push(p, e, keys_in_order(log.take(k + 1))[t]);
                    if t == groups.len() - 1 {
                        assert(groups@[t].ops@.map_values(|o: PendingOp| o@) =~= seq![e.1]);
                        assert(ops_for(p, e.0) =~= seq![]) by {
                            lemma_ops_for_absent(p, e.0);
                        }
                    } else {
                        assert(groups@[t] == old_groups[t]);
                        assert(keys_in_order(p)[t] != e.0);
                    }
                }
            }
        }
        k = k + 1;
    }
    assert(log.take(n as int) =~= log);
    assert(batches_view(groups@) =~= batches_of(log));
    groups
}

/// An index absent from the keys has no queued operation.
pub proof fn lemma_ops_for_absent(log: Seq<QueuedView>, key: IndexKeyView)
    requires
        !keys_in_order(log).contains(key),
    ensures
        ops_for(log, key) == Seq::<PendingOpView>::empty(),
    decreases log.len(),
{
    if log.len() > 0 {
        let keys = keys_in_order(log.drop_last());
        if keys.contains(key) {
            let i = choose|i: int| 0 <= i < keys.len() && keys[i] == key;
            if !keys.contains(log.last().0) {
                assert(keys.push(log.last().0)[i] == key);
            }
        }
        lemma_ops_for_absent(log.drop_last(), key);
        if log.last().0 == key {
            if keys.contains(log.last().0) {
            } else {
                assert(keys.push(log.last().0)[keys.len() as int] == key);
            }
        }
    }
}

/// Ends the buffering of the current transaction, which is about to commit:
/// hands back every pending operation, grouped per index and in queue order
/// within each index, for the caller to write; leaves the buffer empty with
/// no callbacks registered.
pub fn flush_pending_operations(state: &mut WriterState) -> (batches: Vec<IndexBatch>)
    ensures
        batches_view(batches@) == batches_of(old(state)@.log),
        final(state)@ == WriterModel::initial(),
{
    let mut queue: Vec<QueuedOp> = Vec::new();
    std::mem::swap(&mut queue, &mut state.queue);
    state.callbacks_registered = false;
    proof {
        assert(final(state)@.log =~= seq![]);
    }
    group_by_index(queue)
}



// ---------------------------------------------------------------------------
// What the operations mean for an index
//
// The functions below state the intended meaning of an operation for an
// index's documents. They are a model: the index itself is written outside
// this library, and no code or trusted item here is held to it.
// ---------------------------------------------------------------------------

/// An index's documents, each a primary key with its text.
pub type DocsView = Seq<(i64, Seq<char>)>;

/// The texts of the documents with key `pk`, in index order.
pub open spec fn docs_for(docs: DocsView, pk: i64) -> Seq<Seq<char>>
    decreases docs.len(),
{
    if docs.len() == 0 {
        seq![]
    } else if docs.last().0 == pk {
        docs_for(docs.drop_last(), pk).push(docs.last().1)
    } else {
        docs_for(docs.drop_last(), pk)
    }
}

/// The documents without those whose key is `pk`.
pub open spec fn remove_pk(docs: DocsView, pk: i64) -> DocsView
    decreases docs.len(),
{
    if docs.len() == 0 {
        seq![]
    } else if docs.last().0 == pk {
        remove_pk(docs.drop_last(), pk)
    } else {
        remove_pk(docs.drop_last(), pk).push(docs.last())
    }
}

/// An index's documents after one operation, as intended: an add appends a
/// document, a delete removes every document with the key. This is a model
/// of the index writer; nothing in this library is held to it.
pub open spec fn apply_op(docs: DocsView, op: PendingOpView) -> DocsView {
    match op {
        PendingOpView::Add { pk, content } => docs.push((pk, content)),
        PendingOpView::Delete { pk } => remove_pk(docs, pk),
    }
}

/// An index's documents after a list of operations, applied in order (the
/// model of [`apply_op`]).
pub open spec fn apply_ops(docs: DocsView, ops: Seq<PendingOpView>) -> DocsView
    decreases ops.len(),
{
    if ops.len() == 0 {
        docs
    } else {
        apply_op(apply_ops(docs, ops.drop_last()), ops.last())
    }
}

/// After a delete no document has the deleted key, and the documents of
/// every other key are unchanged.
pub proof fn lemma_remove_pk(docs: DocsView, pk: i64, other: i64)
    ensures
        docs_for(remove_pk(docs, pk), pk) == Seq::<Seq<char>>::empty(),
        other != pk ==> docs_for(remove_pk(docs, pk), other) == docs_for(docs, other),
    decreases docs.len(),
{
    if docs.len() > 0 {
        lemma_remove_pk(docs.drop_last(), pk, other);
        if docs.last().0 != pk {
            assert(remove_pk(docs, pk).drop_last() =~= remove_pk(docs.drop_last(), pk));
        }
    }
}

/// After an add, the added key has one more document, with the added
/// text, and every other key's documents are unchanged.
pub proof fn lemma_add_doc(docs: DocsView, pk: i64, content: Seq<char>, other: i64)
    ensures
        docs_for(docs.push((pk, content)), pk) == docs_for(docs, pk).push(content),
        other != pk ==> docs_for(docs.push((pk, content)), other) == docs_for(docs, other),
{
    assert(docs.push((pk, content)).drop_last() =~= docs);
}

// ---------------------------------------------------------------------------
// Laws
// ---------------------------------------------------------------------------

/// The indexes of a list of batches.
pub open spec fn batch_keys(batches: Seq<(IndexKeyView, Seq<PendingOpView>)>) -> Seq<IndexKeyView> {
    batches.map_values(|b: (IndexKeyView, Seq<PendingOpView>)| b.0)
}

/// The number of operations over a list of batches.
pub open spec fn batch_total(batches: Seq<(IndexKeyView, Seq<PendingOpView>)>) -> nat
    decreases batches.len(),
{
    if batches.len() == 0 {
        0
    } else {
        batch_total(batches.drop_last()) + batches.last().1.len()
    }
}

spec fn ops_count_over(log: Seq<QueuedView>, keys: Seq<IndexKeyView>) -> nat
    decreases keys.len(),
{
    if keys.len() == 0 {
        0
    } else {
        ops_count_over(log, keys.drop_last()) + ops_for(log, keys.last()).len()
    }
}

proof fn lemma_count_over_push(log: Seq<QueuedView>, e: QueuedView, keys: Seq<IndexKeyView>)
    requires
        keys.no_duplicates(),
    ensures
        ops_count_over(log.push(e), keys) == ops_count_over(log, keys) + (if keys.contains(e.0) {
            1nat
        } else {
            0nat
        }),
    decreases keys.len(),
{
    if keys.len() > 0 {
        let init = keys.drop_last();
        assert(init.no_duplicates()) by {
            assert forall|i: int, j: int|
                0 <= i < init.len() && 0 <= j < init.len() && i != j implies init[i] != init[j] by {
                assert(init[i] == keys[i] && init[j] == keys[j]);
            }
        }
        lemma_count_over_push(log, e, init);
        lemma_ops_for_push(log, e, keys.last());
        if init.contains(e.0) {
            let i = choose|i: int| 0 <= i < init.len() && init[i] == e.0;
            assert(keys[i] == e.0);
            assert(keys.last() != e.0);
            assert(keys.contains(e.0));
        } else if keys.last() == e.0 {
            assert(keys.contains(e.0));
        } else {
            assert forall|i: int| 0 <= i < keys.len() implies keys[i] != e.0 by {
                if i < init.len() {
                    assert(init[i] == keys[i]);
                }
            }
        }
    }
}

proof fn lemma_count_over_extend(log: Seq<QueuedView>, keys: Seq<IndexKeyView>, k: IndexKeyView)
    ensures
        ops_count_over(log, keys.push(k)) == ops_count_over(log, keys) + ops_for(log, k).len(),
{
    assert(keys.push(k).drop_last() =~= keys);
}

proof fn lemma_batch_total_is_count(log: Seq<QueuedView>, keys: Seq<IndexKeyView>)
    ensures
        batch_total(keys.map_values(|k: IndexKeyView| (k, ops_for(log, k)))) == ops_count_over(log, keys),
    decreases keys.len(),
{
    if keys.len() > 0 {
        assert(keys.map_values(|k: IndexKeyView| (k, ops_for(log, k))).drop_last() =~= keys.drop_last().map_values(
            |k: IndexKeyView| (k, ops_for(log, k)),
        ));
        lemma_batch_total_is_count(log, keys.drop_last());
    }
}

proof fn lemma_count_is_log_len(log: Seq<QueuedView>)
    ensures
        ops_count_over(log, keys_in_order(log)) == log.len(),
    decreases log.len(),
{
    if log.len() > 0 {
        let init = log.drop_last();
        let e = log.last();
        assert(init.push(e) =~= log);
        lemma_count_is_log_len(init);
        lemma_keys_distinct(init);
        lemma_count_over_push(init, e, keys_in_order(init));
        lemma_keys_push(init, e);
        if !keys_in_order(init).contains(e.0) {
            lemma_count_over_extend(log, keys_in_order(init), e.0);
            lemma_ops_for_absent(init, e.0);
            lemma_ops_for_push(init, e, e.0);
        }
    }
}

proof fn lemma_queued_key_listed(log: Seq<QueuedView>, i: int)
    requires
        0 <= i < log.len(),
    ensures
        keys_in_order(log).contains(log[i].0),
    decreases log.len(),
{
    let init = log.drop_last();
    assert(init.push(log.last()) =~= log);
    lemma_keys_push(init, log.last());
    if i < log.len() - 1 {
        assert(init[i] == log[i]);
        lemma_queued_key_listed(init, i);
        let j = choose|j: int| 0 <= j < keys_in_order(init).len() && keys_in_order(init)[j] == log[i].0;
        if !keys_in_order(init).contains(log.last().0) {
            assert(keys_in_order(log)[j] == log[i].0);
        }
    } else {
        if !keys_in_order(init).contains(log.last().0) {
            assert(keys_in_order(log)[keys_in_order(init).len() as int] == log[i].0);
        }
    }
}

/// What a commit writes accounts for every queued operation exactly once:
/// each index gets one batch, every index with a queued operation gets a
/// batch, a batch holds its index's operations in queue order, and the
/// batches hold as many operations as were queued.
pub proof fn lemma_commit_writes_each_queued_op_once(log: Seq<QueuedView>)
    ensures
        batch_keys(batches_of(log)).no_duplicates(),
        forall|i: int| 0 <= i < log.len() ==> batch_keys(batches_of(log)).contains(#[trigger] log[i].0),
        forall|j: int|
            0 <= j < batches_of(log).len() ==> #[trigger] batches_of(log)[j].1 == ops_for(
                log,
                batches_of(log)[j].0,
            ),
        batch_total(batches_of(log)) == log.len(),
{
    let keys = keys_in_order(log);
    assert(batch_keys(batches_of(log)) =~= keys);
    lemma_keys_distinct(log);
    assert forall|i: int| 0 <= i < log.len() implies batch_keys(batches_of(log)).contains(#[trigger] log[i].0) by {
        lemma_queued_key_listed(log, i);
    }
    lemma_batch_total_is_count(log, keys);
    lemma_count_is_log_len(log);
}

/// Queueing an operation for one index appends it to that index's pending
/// operations and leaves every other index's pending operations unchanged.
pub proof fn lemma_queue_touches_only_its_index(
    m: WriterModel,
    key: IndexKeyView,
    op: PendingOpView,
    other: IndexKeyView,
)
    ensures
        ops_for(m.queued(key, op).log, key) == ops_for(m.log, key).push(op),
        other != key ==> ops_for(m.queued(key, op).log, other) == ops_for(m.log, other),
{
    lemma_ops_for_push(m.log, (key, op), key);
    lemma_ops_for_push(m.log, (key, op), other);
}

/// The transaction callbacks are registered by the first queued operation
/// of a transaction only: once an operation is queued, a further one does
/// not register them again; after a commit or an abort the next one does.
pub proof fn lemma_callbacks_registered_once_per_transaction(
    m: WriterModel,
    key: IndexKeyView,
    op: PendingOpView,
)
    ensures
        m.queued(key, op).callbacks_registered,
        !WriterModel::initial().callbacks_registered,
{
}

/// The buffer after each of `queued` is queued, in order.
pub open spec fn queue_all(m: WriterModel, queued: Seq<QueuedView>) -> WriterModel
    decreases queued.len(),
{
    if queued.len() == 0 {
        m
    } else {
        queue_all(m, queued.drop_last()).queued(queued.last().0, queued.last().1)
    }
}

/// Operations of an aborted transaction never reach a later commit: after
/// an abort, whatever is queued next, the next commit hands out exactly the
/// operations queued after the abort and none from before it.
pub proof fn lemma_aborted_ops_never_flushed(later: Seq<QueuedView>)
    ensures
        queue_all(WriterModel::initial(), later).log == later,
        batches_of(queue_all(WriterModel::initial(), later).log) == batches_of(later),
    decreases later.len(),
{
    if later.len() > 0 {
        lemma_aborted_ops_never_flushed(later.drop_last());
        assert(later.drop_last().push(later.last()) =~= later);
    } else {
        assert(WriterModel::initial().log =~= later);
    }
}

/// Drops every pending operation and ends the transaction's buffering.
/// Called when the transaction aborts. What is queued afterwards starts from
/// an empty buffer (see `lemma_aborted_ops_never_flushed`).
pub fn discard_pending_operations(state: &mut WriterState)
    ensures
        final(state)@ == WriterModel::initial(),
{
    state.queue.clear();
    state.callbacks_registered = false;
    proof {
        assert(final(state)@.log =~= seq![]);
    }
}

/// Clears any cached state for an index. Writers are not cached, so there is
/// nothing to clear.
pub fn remove_writer(table_name: &str, column_name: &str) {
}

} // verus!
