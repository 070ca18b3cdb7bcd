use pdb::trigger::{
    indexed_columns_from_rows, indexed_columns_query, pdb_sync_trigger, ColumnChange, FieldRead,
    RowValues, TriggerError, TriggerOp,
};
use pdb::writer::{flush_pending_operations, IndexBatch, PendingOp, WriterState};

fn row(pk: i64, text: &str) -> Option<RowValues> {
    Some(RowValues { pk: FieldRead::Value(pk), content: FieldRead::Value(text.to_string()) })
}

fn change(column: &str, old_row: Option<RowValues>, new_row: Option<RowValues>) -> ColumnChange {
    ColumnChange { column_name: column.to_string(), pk_column: "id".to_string(), old_row, new_row }
}

fn ops(batch: &IndexBatch) -> Vec<String> {
    batch
        .ops
        .iter()
        .map(|op| match op {
            PendingOp::Add { pk, content } => format!("add {} {}", pk, content),
            PendingOp::Delete { pk } => format!("delete {}", pk),
        })
        .collect()
}

#[test]
fn insert_queues_an_add() {
    let mut state = WriterState::new();
    let (register, result) = pdb_sync_trigger(&mut state, "articles", TriggerOp::Insert, vec![change("body", None, row(1, "rust"))]);
    assert!(register);
    assert!(result.is_ok());
    let batches = flush_pending_operations(&mut state);
    assert_eq!(batches.len(), 1);
    assert_eq!(batches[0].table_name, "articles");
    assert_eq!(ops(&batches[0]), vec!["add 1 rust"]);
}

#[test]
fn update_queues_delete_of_old_then_add_of_new() {
    let mut state = WriterState::new();
    let (_, result) = pdb_sync_trigger(&mut state, "articles", TriggerOp::Update, vec![change("body", row(1, "old"), row(2, "new"))]);
    assert!(result.is_ok());
    let batches = flush_pending_operations(&mut state);
    assert_eq!(ops(&batches[0]), vec!["delete 1", "add 2 new"]);
}

#[test]
fn delete_queues_a_delete() {
    let mut state = WriterState::new();
    let (_, result) = pdb_sync_trigger(&mut state, "articles", TriggerOp::Delete, vec![change("body", row(5, "gone"), None)]);
    assert!(result.is_ok());
    assert_eq!(ops(&flush_pending_operations(&mut state)[0]), vec!["delete 5"]);
}

#[test]
fn truncate_and_missing_rows_queue_nothing() {
    let mut state = WriterState::new();
    let (register, result) = pdb_sync_trigger(&mut state, "t", TriggerOp::Truncate, vec![change("c", row(1, "a"), row(1, "a"))]);
    assert!(!register && result.is_ok());
    let (register, result) = pdb_sync_trigger(&mut state, "t", TriggerOp::Insert, vec![change("c", row(1, "a"), None)]);
    assert!(!register && result.is_ok());
    let (register, result) = pdb_sync_trigger(&mut state, "t", TriggerOp::Update, vec![change("c", None, row(1, "a"))]);
    assert!(!register && result.is_ok());
    assert!(state.is_empty());
}

#[test]
fn every_index_on_the_table_is_kept_in_step() {
    let mut state = WriterState::new();
    let (register, result) = pdb_sync_trigger(
        &mut state,
        "articles",
        TriggerOp::Insert,
        vec![change("title", None, row(1, "Rust Guide")), change("body", None, row(1, "Rust is fast"))],
    );
    assert!(register && result.is_ok());
    let batches = flush_pending_operations(&mut state);
    assert_eq!(batches.len(), 2);
    assert_eq!(batches[0].column_name, "title");
    assert_eq!(ops(&batches[1]), vec!["add 1 Rust is fast"]);
}

fn error_of(op: TriggerOp, c: ColumnChange) -> String {
    let mut state = WriterState::new();
    match pdb_sync_trigger(&mut state, "t", op, vec![c]) {
        (_, Err(e)) => e.message(),
        _ => panic!("expected an error"),
    }
}

#[test]
fn missing_fields_are_reported() {
    let null_pk = || Some(RowValues { pk: FieldRead::Null, content: FieldRead::Value("x".to_string()) });
    let null_text = || Some(RowValues { pk: FieldRead::Value(1), content: FieldRead::Null });
    assert_eq!(error_of(TriggerOp::Insert, change("body", None, null_pk())), "PK column id not found or null");
    assert_eq!(error_of(TriggerOp::Insert, change("body", None, null_text())), "column body not found");
    assert_eq!(error_of(TriggerOp::Update, change("body", null_pk(), row(1, "a"))), "old PK column id not found or null");
    assert_eq!(error_of(TriggerOp::Update, change("body", row(1, "a"), null_pk())), "new PK column id not found or null");
    assert_eq!(error_of(TriggerOp::Update, change("body", row(1, "a"), null_text())), "new column body not found");
    assert_eq!(error_of(TriggerOp::Delete, change("body", null_pk(), None)), "PK column id not found or null");
    let unreadable = Some(RowValues { pk: FieldRead::Failed("no such attribute".to_string()), content: FieldRead::Null });
    assert_eq!(error_of(TriggerOp::Insert, change("body", None, unreadable)), "no such attribute");
}

#[test]
fn an_error_stops_the_later_indexes() {
    let mut state = WriterState::new();
    let broken = Some(RowValues { pk: FieldRead::Value(2), content: FieldRead::Null });
    let (register, result) = pdb_sync_trigger(
        &mut state,
        "t",
        TriggerOp::Insert,
        vec![change("a", None, row(2, "x")), change("b", None, broken), change("c", None, row(2, "z"))],
    );
    assert!(register);
    assert!(matches!(result, Err(TriggerError::ColumnMissing(ref c)) if c == "b"));
    let batches = flush_pending_operations(&mut state);
    assert_eq!(batches.len(), 1);
    assert_eq!(batches[0].column_name, "a");
}

#[test]
fn indexed_columns_of_a_table() {
    assert_eq!(
        indexed_columns_query("articles"),
        "SELECT column_name, pk_column FROM pdb_index_metadata WHERE table_name = 'articles'"
    );
    let columns = indexed_columns_from_rows(vec![
        (Some("body".to_string()), Some("id".to_string())),
        (None, Some("id".to_string())),
        (Some("title".to_string()), Some("id".to_string())),
    ]);
    assert_eq!(columns, vec![("body".to_string(), "id".to_string()), ("title".to_string(), "id".to_string())]);
}
