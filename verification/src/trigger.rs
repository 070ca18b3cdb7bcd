//! Keeping an index in step with its table: what a row change queues.
//!
//! On INSERT a row's document is added, on DELETE it is deleted, and on
//! UPDATE the old document is deleted and the new one added. Every queued
//! operation waits for the transaction to commit (see the writer module).

use vstd::prelude::*;
use vstd::string::*;

use crate::vecs::reversed;
use crate::writer::{
    apply_op, apply_ops, docs_for, lemma_add_doc, lemma_remove_pk, queue_add, queue_delete, remove_pk,
    DocsView, IndexKeyView, PendingOpView, QueuedView, WriterState,
};

verus! {

/// What reading one field of a row gave.
#[derive(Debug)]
pub enum FieldRead<T> {
    /// The field holds this value.
    Value(T),
    /// The field is SQL NULL.
    Null,
    /// The field could not be read (no such column, or a type that does not
    /// convert); the text says why.
    Failed(String),
}

/// The two fields of a row that an index needs: its primary key and the
/// indexed text.
#[derive(Debug)]
pub struct RowValues {
    pub pk: FieldRead<i64>,
    pub content: FieldRead<String>,
}

/// The kind of row change that fired the trigger.
#[derive(Debug)]
pub enum TriggerOp {
    Insert,
    Update,
    Delete,
    Truncate,
}

/// A row change as seen by one index on the table: the index's column, the
/// table's primary key column, and the fields of the old and new row that
/// the trigger provides.
#[derive(Debug)]
pub struct ColumnChange {
    pub column_name: String,
    pub pk_column: String,
    pub old_row: Option<RowValues>,
    pub new_row: Option<RowValues>,
}

/// Why a row change could not be queued.
#[derive(Debug)]
pub enum TriggerError {
    /// A field could not be read.
    Read(String),
    /// The primary key of the row is missing or NULL.
    PkMissing(String),
    /// The indexed column of the new row is missing or NULL.
    ColumnMissing(String),
    /// The primary key of the old row of an update is missing or NULL.
    OldPkMissing(String),
    /// The primary key of the new row of an update is missing or NULL.
    NewPkMissing(String),
    /// The indexed column of the new row of an update is missing or NULL.
    NewColumnMissing(String),
}

/// The mathematical value of a [`TriggerError`].
pub enum TriggerErrorView {
    Read(Seq<char>),
    PkMissing(Seq<char>),
    ColumnMissing(Seq<char>),
    OldPkMissing(Seq<char>),
    NewPkMissing(Seq<char>),
    NewColumnMissing(Seq<char>),
}

impl View for TriggerError {
    type V = TriggerErrorView;

    open spec fn view(&self) -> TriggerErrorView {
        match self {
            TriggerError::Read(s) => TriggerErrorView::Read(s@),
            TriggerError::PkMissing(s) => TriggerErrorView::PkMissing(s@),
            TriggerError::ColumnMissing(s) => TriggerErrorView::ColumnMissing(s@),
            TriggerError::OldPkMissing(s) => TriggerErrorView::OldPkMissing(s@),
            TriggerError::NewPkMissing(s) => TriggerErrorView::NewPkMissing(s@),
            TriggerError::NewColumnMissing(s) => TriggerErrorView::NewColumnMissing(s@),
        }
    }
}

/// The text of an error.
pub open spec fn trigger_error_text(e: TriggerErrorView) -> Seq<char> {
    match e {
        TriggerErrorView::Read(s) => s,
        TriggerErrorView::PkMissing(c) => "PK column "@ + c + " not found or null"@,
        TriggerErrorView::ColumnMissing(c) => "column "@ + c + " not found"@,
        TriggerErrorView::OldPkMissing(c) => "old PK column "@ + c + " not found or null"@,
        TriggerErrorView::NewPkMissing(c) => "new PK column "@ + c + " not found or null"@,
        TriggerErrorView::NewColumnMissing(c) => "new column "@ + c + " not found"@,
    }
}

fn framed(prefix: &str, name: &String, suffix: &str) -> (s: String)
    ensures
        s@ == prefix@ + name@ + suffix@,
{
    let mut s = String::from_str(prefix);
    s.append(name.as_str());
    s.append(suffix);
    s
}

impl TriggerError {
    /// The error's text, as the trigger reports it.
    pub fn message(&self) -> (m: String)
        ensures
            m@ == trigger_error_text(self@),
    {
        match self {
            TriggerError::Read(s) => s.clone(),
            TriggerError::PkMissing(c) => framed("PK column ", c, " not found or null"),
            TriggerError::ColumnMissing(c) => framed("column ", c, " not found"),
            TriggerError::OldPkMissing(c) => framed("old PK column ", c, " not found or null"),
            TriggerError::NewPkMissing(c) => framed("new PK column ", c, " not found or null"),
            TriggerError::NewColumnMissing(c) => framed("new column ", c, " not found"),
        }
    }
}

/// The key read from a field, or the error: a read failure passes its text
/// on, a NULL gives `missing`.
pub open spec fn read_pk(f: FieldRead<i64>, missing: TriggerErrorView) -> Result<i64, TriggerErrorView> {
    match f {
        FieldRead::Value(v) => Ok(v),
        FieldRead::Null => Err(missing),
        FieldRead::Failed(s) => Err(TriggerErrorView::Read(s@)),
    }
}

/// The text read from a field, or the error.
pub open spec fn read_text(f: FieldRead<String>, missing: TriggerErrorView) -> Result<Seq<char>, TriggerErrorView> {
    match f {
        FieldRead::Value(v) => Ok(v@),
        FieldRead::Null => Err(missing),
        FieldRead::Failed(s) => Err(TriggerErrorView::Read(s@)),
    }
}

/// The operations that one index queues for a row change, or the first
/// error met; the fields are read in the order key, then text.
pub open spec fn change_ops(op: TriggerOp, c: ColumnChange) -> Result<Seq<PendingOpView>, TriggerErrorView> {
    match op {
        TriggerOp::Insert => match c.new_row {
            None => Ok(seq![]),
            Some(row) => match read_pk(row.pk, TriggerErrorView::PkMissing(c.pk_column@)) {
                Err(e) => Err(e),
                Ok(pk) => match read_text(row.content, TriggerErrorView::ColumnMissing(c.column_name@)) {
                    Err(e) => Err(e),
                    Ok(content) => Ok(seq![PendingOpView::Add { pk, content }]),
                },
            },
        },
        TriggerOp::Update => match (c.old_row, c.new_row) {
            (Some(old_row), Some(new_row)) => match read_pk(
                old_row.pk,
                TriggerErrorView::OldPkMissing(c.pk_column@),
            ) {
                Err(e) => Err(e),
                Ok(old_pk) => match read_pk(new_row.pk, TriggerErrorView::NewPkMissing(c.pk_column@)) {
                    Err(e) => Err(e),
                    Ok(new_pk) => match read_text(
                        new_row.content,
                        TriggerErrorView::NewColumnMissing(c.column_name@),
                    ) {
                        Err(e) => Err(e),
                        Ok(content) => Ok(
                            seq![
                                PendingOpView::Delete { pk: old_pk },
                                PendingOpView::Add { pk: new_pk, content },
                            ],
                        ),
                    },
                },
            },
            _ => Ok(seq![]),
        },
        TriggerOp::Delete => match c.old_row {
            None => Ok(seq![]),
            Some(row) => match read_pk(row.pk, TriggerErrorView::PkMissing(c.pk_column@)) {
                Err(e) => Err(e),
                Ok(pk) => Ok(seq![PendingOpView::Delete { pk }]),
            },
        },
        TriggerOp::Truncate => Ok(seq![]),
    }
}

/// Pairs each operation with the index it is queued for.
pub open spec fn keyed(key: IndexKeyView, ops: Seq<PendingOpView>) -> Seq<QueuedView> {
    ops.map_values(|o: PendingOpView| (key, o))
}

/// What a row change queues over the table's indexes, taken in order: the
/// operations queued, and the error that stopped it, if any. The indexes
/// before the failing one keep what they queued.
pub open spec fn sync_effect(table: Seq<char>, op: TriggerOp, changes: Seq<ColumnChange>) -> (
    Seq<QueuedView>,
    Option<TriggerErrorView>,
)
    decreases changes.len(),
{
    if changes.len() == 0 {
        (seq![], None)
    } else {
        let (log, err) = sync_effect(table, op, changes.drop_last());
        if err is Some {
            (log, err)
        } else {
            let c = changes.last();
            match change_ops(op, c) {
                Ok(ops) => (log + keyed((table, c.column_name@), ops), None),
                Err(e) => (log, Some(e)),
            }
        }
    }
}

fn take_pk(f: FieldRead<i64>, missing: TriggerError) -> (r: Result<i64, TriggerError>)
    ensures
        match (r, read_pk(f, missing@)) {
            (Ok(a), Ok(b)) => a == b,
            (Err(a), Err(b)) => a@ == b,
            _ => false,
        },
{
    match f {
        FieldRead::Value(v) => Ok(v),
        FieldRead::Null => Err(missing),
        FieldRead::Failed(s) => Err(TriggerError::Read(s)),
    }
}

fn take_text(f: FieldRead<String>, missing: TriggerError) -> (r: Result<String, TriggerError>)
    ensures
        match (r, read_text(f, missing@)) {
            (Ok(a), Ok(b)) => a@ == b,
            (Err(a), Err(b)) => a@ == b,
            _ => false,
        },
{
    match f {
        FieldRead::Value(v) => Ok(v),
        FieldRead::Null => Err(missing),
        FieldRead::Failed(s) => Err(TriggerError::Read(s)),
    }
}

fn queue_change(
    state: &mut WriterState,
    table_name: &str,
    op: &TriggerOp,
    c: ColumnChange,
) -> (res: (bool, Result<(), TriggerError>))
    ensures
        ({
            match change_ops(*op, c) {
                Ok(ops) => {
                    &&& res.1 is Ok
                    &&& final(state)@.log == old(state)@.log + keyed((table_name@, c.column_name@), ops)
                    &&& final(state)@.callbacks_registered == (old(state)@.callbacks_registered
                        || ops.len() > 0)
                    &&& res.0 == (!old(state)@.callbacks_registered && ops.len() > 0)
                },
                Err(e) => {
                    &&& res.1 matches Err(got) && got@ == e
                    &&& final(state)@ == old(state)@
                    &&& !res.0
                },
            }
        }),
{
    let ghost s0 = state@;
    let ColumnChange { column_name, pk_column, old_row, new_row } = c;
    match op {
        TriggerOp::Insert => match new_row {
            None => {
                assert(old(state)@.log + keyed((table_name@, column_name@), seq![]) =~= old(state)@.log);
                (false, Ok(()))
            },
            Some(row) => {
                let RowValues { pk, content } = row;
                let pk = match take_pk(pk, TriggerError::PkMissing(pk_column)) {
                    Ok(v) => v,
                    Err(e) => { return (false, Err(e)); },
                };
                let content = match take_text(content, TriggerError::ColumnMissing(column_name.clone())) {
                    Ok(v) => v,
                    Err(e) => { return (false, Err(e)); },
                };
                let ghost content_view = content@;
                let register = queue_add(state, table_name, column_name.as_str(), pk, content);
                assert(final(state)@.log =~= s0.log + keyed(
                    (table_name@, column_name@),
                    seq![PendingOpView::Add { pk, content: content_view }],
                ));
                (register, Ok(()))
            },
        },
        TriggerOp::Update => match (old_row, new_row) {
            (Some(old_row), Some(new_row)) => {
                let old_pk = match take_pk(old_row.pk, TriggerError::OldPkMissing(pk_column.clone())) {
                    Ok(v) => v,
                    Err(e) => { return (false, Err(e)); },
                };
                let new_pk = match take_pk(new_row.pk, TriggerError::NewPkMissing(pk_column)) {
                    Ok(v) => v,
                    Err(e) => { return (false, Err(e)); },
                };
                let content = match take_text(new_row.content, TriggerError::NewColumnMissing(column_name.clone())) {
                    Ok(v) => v,
                    Err(e) => { return (false, Err(e)); },
                };
                let ghost content_view = content@;
                let r1 = queue_delete(state, table_name, column_name.as_str(), old_pk);
                let r2 = queue_add(state, table_name, column_name.as_str(), new_pk, content);
                assert(final(state)@.log =~= s0.log + keyed(
                    (table_name@, column_name@),
                    seq![PendingOpView::Delete { pk: old_pk }, PendingOpView::Add { pk: new_pk, content: content_view }],
                ));
                (r1 || r2, Ok(()))
            },
            _ => {
                assert(old(state)@.log + keyed((table_name@, column_name@), seq![]) =~= old(state)@.log);
                (false, Ok(()))
            },
        },
        TriggerOp::Delete => match old_row {
            None => {
                assert(old(state)@.log + keyed((table_name@, column_name@), seq![]) =~= old(state)@.log);
                (false, Ok(()))
            },
            Some(row) => {
                let pk = match take_pk(row.pk, TriggerError::PkMissing(pk_column)) {
                    Ok(v) => v,
                    Err(e) => { return (false, Err(e)); },
                };
                let register = queue_delete(state, table_name, column_name.as_str(), pk);
                assert(final(state)@.log =~= s0.log + keyed(
                    (table_name@, column_name@),
                    seq![PendingOpView::Delete { pk }],
                ));
                (register, Ok(()))
            },
        },
        TriggerOp::Truncate => {
            assert(old(state)@.log + keyed((table_name@, column_name@), seq![]) =~= old(state)@.log);
            (false, Ok(()))
        },
    }
}

/// Queues what a row change means for each index on the table, in the
/// order of `changes`, stopping at the first error. Returns whether the
/// transaction callbacks must be registered now, and the error if any.
/// Operations queued before an error stay queued; the error aborts the
/// transaction, which discards them.
pub fn pdb_sync_trigger(
    state: &mut WriterState,
    table_name: &str,
    op: TriggerOp,
    changes: Vec<ColumnChange>,
) -> (res: (bool, Result<(), TriggerError>))
    ensures
        ({
            let (log, err) = sync_effect(table_name@, op, changes@);
            &&& final(state)@.log == old(state)@.log + log
            &&& final(state)@.callbacks_registered == (old(state)@.callbacks_registered || log.len()
                > 0)
            &&& res.0 == (!old(state)@.callbacks_registered && log.len() > 0)
            &&& match err {
                None => res.1 is Ok,
                Some(e) => res.1 matches Err(got) && got@ == e,
            }
        }),
{
    let ghost all = changes@;
    let ghost s0 = state@;
    let n = changes.len();
    let mut pending = reversed(changes);
    let mut register = false;
    let mut k: usize = 0;
    while k < n
        invariant
            k <= n,
            n == all.len(),
            all == changes@,
            s0 == old(state)@,
            pending@ == all.reverse().take((n - k) as int),
            sync_effect(table_name@, op, all.take(k as int)).1 is None,
            state@.log == s0.log + sync_effect(table_name@, op, all.take(k as int)).0,
            state@.callbacks_registered == (s0.callbacks_registered
                || sync_effect(table_name@, op, all.take(k as int)).0.len() > 0),
            register == (!s0.callbacks_registered && sync_effect(
                table_name@,
                op,
                all.take(k as int),
            ).0.len() > 0),
        decreases n - k,
    {
        let ghost prefix = all.take(k as int);
        assert(all.take(k + 1).drop_last() =~= prefix);
        assert(pending@[pending.len() - 1] == all[k as int]);
        let c = pending.pop().unwrap();
        assert(pending@ =~= all.reverse().take((n - k - 1) as int));
        assert(all.take(k + 1).last() == c);
        let (r, outcome) = queue_change(state, table_name, &op, c);
        match outcome {
            Ok(()) => {
                register = register || r;
                k = k + 1;
                proof {
                    assert(state@.log =~= s0.log + sync_effect(table_name@, op, all.take(k as int)).0);
                }
            },
            Err(e) => {
                proof {
                    assert(change_ops(op, all.take(k + 1).last()) is Err);
                    assert(sync_effect(table_name@, op, all.take(k + 1)) == (
                        sync_effect(table_name@, op, prefix).0,
                        Some(e@),
                    ));
                    lemma_sync_stops_after_error(table_name@, op, all, (k + 1) as int);
                    assert(all.take(n as int) =~= all);
                }
                return (register, Err(e));
            },
        }
    }
    assert(all.take(n as int) =~= all);
    (register, Ok(()))
}

/// Once a change has failed, later changes add nothing and the error stays.
proof fn lemma_sync_stops_after_error(table: Seq<char>, op: TriggerOp, all: Seq<ColumnChange>, k: int)
    requires
        0 < k <= all.len(),
        sync_effect(table, op, all.take(k)).1 is Some,
    ensures
        sync_effect(table, op, all) == sync_effect(table, op, all.take(k)),
    decreases all.len() - k,
{
    if k < all.len() {
        assert(all.take(k + 1).drop_last() =~= all.take(k));
        lemma_sync_stops_after_error(table, op, all, k + 1);
    } else {
        assert(all.take(k) =~= all);
    }
}

/// The query listing the indexed columns of a table with the table's key
/// column.
pub open spec fn indexed_columns_query_text(table: Seq<char>) -> Seq<char> {
    "SELECT column_name, pk_column FROM pdb_index_metadata WHERE table_name = '"@ + table + "'"@
}

/// Builds the query listing the indexed columns of `table_name`.
pub fn indexed_columns_query(table_name: &str) -> (q: String)
    ensures
        q@ == indexed_columns_query_text(table_name@),
{
    let mut q = String::from_str(
        "SELECT column_name, pk_column FROM pdb_index_metadata WHERE table_name = '",
    );
    q.append(table_name);
    q.append("'");
    q
}

/// The (column, key column) pairs of the rows whose two fields were read,
/// in row order.
pub open spec fn complete_pairs(rows: Seq<(Option<String>, Option<String>)>) -> Seq<(Seq<char>, Seq<char>)>
    decreases rows.len(),
{
    if rows.len() == 0 {
        seq![]
    } else {
        let rest = complete_pairs(rows.drop_last());
        match rows.last() {
            (Some(a), Some(b)) => rest.push((a@, b@)),
            _ => rest,
        }
    }
}

/// The view of a list of string pairs.
pub open spec fn pairs_view(pairs: Seq<(String, String)>) -> Seq<(Seq<char>, Seq<char>)> {
    pairs.map_values(|p: (String, String)| (p.0@, p.1@))
}

/// The indexed columns of a table, with its key column, from the rows of
/// the catalog query (each field `None` when NULL or unreadable).
pub fn indexed_columns_from_rows(rows: Vec<(Option<String>, Option<String>)>) -> (columns: Vec<(String, String)>)
    ensures
        pairs_view(columns@) == complete_pairs(rows@),
{
    let ghost all = rows@;
    let n = rows.len();
    let mut pending = reversed(rows);
    let mut columns: Vec<(String, String)> = Vec::new();
    let mut i: usize = 0;
    while i < n
        invariant
            i <= n,
            n == all.len(),
            pending@ == all.reverse().take((n - i) as int),
            pairs_view(columns@) == complete_pairs(all.take(i as int)),
        decreases n - i,
    {
        assert(all.take(i + 1).drop_last() =~= all.take(i as int));
        assert(pending@[pending.len() - 1] == all[i as int]);
        let row = pending.pop().unwrap();
        assert(pending@ =~= all.reverse().take((n - i - 1) as int));
        let ghost before = columns@;
        if let (Some(column), Some(pk_column)) = row {
            columns.push((column, pk_column));
            assert(pairs_view(columns@) =~= pairs_view(before).push((column@, pk_column@)));
        }
        i = i + 1;
    }
    assert(all.take(n as int) =~= all);
    columns
}

// ---------------------------------------------------------------------------
// Laws
// ---------------------------------------------------------------------------

/// Under the model of an index's documents in the writer module (which no
/// code here is held to): an INSERT adds the new row's document; a DELETE removes every document
/// with the old row's key and leaves other keys alone; an UPDATE removes
/// every document with the old key and then adds the new row's document, so
/// that the new key ends with the new text as its last document and, when
/// the key changed, the old key has none.
pub proof fn lemma_row_changes_keep_index_in_step(
    op: TriggerOp,
    c: ColumnChange,
    docs: DocsView,
    other: i64,
)
    requires
        change_ops(op, c) is Ok,
    ensures
        (op is Insert && c.new_row is Some && c.new_row->0.pk is Value && c.new_row->0.content is Value)
            ==> {
            let pk = c.new_row->0.pk->Value_0;
            let text = c.new_row->0.content->Value_0@;
            &&& docs_for(apply_ops(docs, change_ops(op, c)->Ok_0), pk) == docs_for(docs, pk).push(text)
            &&& other != pk ==> docs_for(apply_ops(docs, change_ops(op, c)->Ok_0), other) == docs_for(docs, other)
        },
        (op is Delete && c.old_row is Some && c.old_row->0.pk is Value) ==> {
            let pk = c.old_row->0.pk->Value_0;
            &&& docs_for(apply_ops(docs, change_ops(op, c)->Ok_0), pk) == Seq::<Seq<char>>::empty()
            &&& other != pk ==> docs_for(apply_ops(docs, change_ops(op, c)->Ok_0), other) == docs_for(docs, other)
        },
        (op is Update && c.old_row is Some && c.new_row is Some && c.old_row->0.pk is Value
            && c.new_row->0.pk is Value && c.new_row->0.content is Value) ==> {
            let old_pk = c.old_row->0.pk->Value_0;
            let new_pk = c.new_row->0.pk->Value_0;
            let text = c.new_row->0.content->Value_0@;
            let after = apply_ops(docs, change_ops(op, c)->Ok_0);
            &&& docs_for(after, new_pk) == (if old_pk == new_pk {
                seq![text]
            } else {
                docs_for(docs, new_pk).push(text)
            })
            &&& old_pk != new_pk ==> docs_for(after, old_pk) == Seq::<Seq<char>>::empty()
            &&& (other != old_pk && other != new_pk) ==> docs_for(after, other) == docs_for(docs, other)
        },
{
    let ops = change_ops(op, c)->Ok_0;
    if op is Insert && c.new_row is Some && c.new_row->0.pk is Value && c.new_row->0.content is Value {
        let pk = c.new_row->0.pk->Value_0;
        let text = c.new_row->0.content->Value_0@;
        assert(ops == seq![PendingOpView::Add { pk, content: text }]);
        lemma_apply_one(docs, ops[0]);
        lemma_add_doc(docs, pk, text, other);
    }
    if op is Delete && c.old_row is Some && c.old_row->0.pk is Value {
        let pk = c.old_row->0.pk->Value_0;
        assert(ops == seq![PendingOpView::Delete { pk }]);
        lemma_apply_one(docs, ops[0]);
        lemma_remove_pk(docs, pk, other);
    }
    if op is Update && c.old_row is Some && c.new_row is Some && c.old_row->0.pk is Value
        && c.new_row->0.pk is Value && c.new_row->0.content is Value {
        let old_pk = c.old_row->0.pk->Value_0;
        let new_pk = c.new_row->0.pk->Value_0;
        let text = c.new_row->0.content->Value_0@;
        assert(ops == seq![PendingOpView::Delete { pk: old_pk }, PendingOpView::Add { pk: new_pk, content: text }]);
        lemma_apply_two(docs, ops[0], ops[1]);
        let removed = remove_pk(docs, old_pk);
        lemma_remove_pk(docs, old_pk, other);
        lemma_remove_pk(docs, old_pk, new_pk);
        lemma_add_doc(removed, new_pk, text, other);
        lemma_add_doc(removed, new_pk, text, old_pk);
        assert(Seq::<Seq<char>>::empty().push(text) =~= seq![text]);
    }
}

proof fn lemma_apply_one(docs: DocsView, a: PendingOpView)
    ensures
        apply_ops(docs, seq![a]) == apply_op(docs, a),
{
    assert(seq![a].drop_last() =~= Seq::<PendingOpView>::empty());
    assert(apply_ops(docs, Seq::<PendingOpView>::empty()) == docs);
    assert(seq![a].last() == a);
}

proof fn lemma_apply_two(docs: DocsView, a: PendingOpView, b: PendingOpView)
    ensures
        apply_ops(docs, seq![a, b]) == apply_op(apply_op(docs, a), b),
{
    assert(seq![a, b].drop_last() =~= seq![a]);
    lemma_apply_one(docs, a);
}

/// A row change whose needed fields are all readable never fails, and it
/// queues what the change means: an INSERT adds (new key, new text); an
/// UPDATE deletes the old key and then adds (new key, new text), whether or
/// not the key changed; a DELETE deletes the old key. A change without the
/// row it needs, and a TRUNCATE, queue nothing.
pub proof fn lemma_readable_changes_never_fail(op: TriggerOp, c: ColumnChange)
    ensures
        (op is Insert && c.new_row is Some && c.new_row->0.pk is Value && c.new_row->0.content is Value)
            ==> change_ops(op, c) == Ok::<Seq<PendingOpView>, TriggerErrorView>(
            seq![
                PendingOpView::Add {
                    pk: c.new_row->0.pk->Value_0,
                    content: c.new_row->0.content->Value_0@,
                },
            ],
        ),
        (op is Update && c.old_row is Some && c.new_row is Some && c.old_row->0.pk is Value
            && c.new_row->0.pk is Value && c.new_row->0.content is Value) ==> change_ops(op, c)
            == Ok::<Seq<PendingOpView>, TriggerErrorView>(
            seq![
                PendingOpView::Delete { pk: c.old_row->0.pk->Value_0 },
                PendingOpView::Add {
                    pk: c.new_row->0.pk->Value_0,
                    content: c.new_row->0.content->Value_0@,
                },
            ],
        ),
        (op is Delete && c.old_row is Some && c.old_row->0.pk is Value) ==> change_ops(op, c)
            == Ok::<Seq<PendingOpView>, TriggerErrorView>(
            seq![PendingOpView::Delete { pk: c.old_row->0.pk->Value_0 }],
        ),
        ((op is Insert && c.new_row is None) || (op is Delete && c.old_row is None) || (op is Update
            && (c.old_row is None || c.new_row is None)) || op is Truncate) ==> change_ops(op, c)
            == Ok::<Seq<PendingOpView>, TriggerErrorView>(Seq::<PendingOpView>::empty()),
{
}

/// A trigger over one index queues, for that index, exactly the operations
/// of the change, or fails with its error and queues nothing.
pub proof fn lemma_sync_one_index(table: Seq<char>, op: TriggerOp, c: ColumnChange)
    ensures
        sync_effect(table, op, seq![c]) == (match change_ops(op, c) {
            Ok(ops) => (keyed((table, c.column_name@), ops), None),
            Err(e) => (Seq::<QueuedView>::empty(), Some(e)),
        }),
        forall|i: int|
            #![trigger keyed((table, c.column_name@), change_ops(op, c)->Ok_0)[i]]
            change_ops(op, c) is Ok && 0 <= i < change_ops(op, c)->Ok_0.len() ==> keyed(
                (table, c.column_name@),
                change_ops(op, c)->Ok_0,
            )[i] == ((table, c.column_name@), change_ops(op, c)->Ok_0[i]),
{
    assert(seq![c].drop_last() =~= Seq::<ColumnChange>::empty());
    assert(seq![c].last() == c);
    assert(sync_effect(table, op, Seq::<ColumnChange>::empty()) == (Seq::<QueuedView>::empty(), None::<TriggerErrorView>));
    if let Ok(ops) = change_ops(op, c) {
        assert(Seq::<QueuedView>::empty() + keyed((table, c.column_name@), ops) =~= keyed((table, c.column_name@), ops));
    }
}

} // verus!
