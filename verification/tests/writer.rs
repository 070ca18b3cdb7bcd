use pdb::writer::{
    discard_pending_operations, ensure_callbacks_registered, flush_pending_operations, queue_add,
    queue_delete, remove_writer, IndexBatch, PendingOp, WriterState,
};

fn describe(batch: &IndexBatch) -> (String, String, Vec<String>) {
    let ops = batch
        .ops
        .iter()
        .map(|op| match op {
            PendingOp::Add { pk, content } => format!("add {} {}", pk, content),
            PendingOp::Delete { pk } => format!("delete {}", pk),
        })
        .collect();
    (batch.table_name.clone(), batch.column_name.clone(), ops)
}

#[test]
fn first_queued_operation_registers_callbacks_once() {
    let mut state = WriterState::new();
    assert!(queue_add(&mut state, "articles", "body", 1, "rust".to_string()));
    assert!(!queue_add(&mut state, "articles", "body", 2, "python".to_string()));
    assert!(!queue_delete(&mut state, "articles", "title", 1));
    assert!(!state.is_empty());
}

#[test]
fn commit_groups_operations_per_index_in_queue_order() {
    let mut state = WriterState::new();
    queue_add(&mut state, "articles", "body", 1, "rust".to_string());
    queue_delete(&mut state, "notes", "text", 7);
    queue_delete(&mut state, "articles", "body", 1);
    queue_add(&mut state, "articles", "body", 1, "rust 2".to_string());
    queue_add(&mut state, "notes", "text", 8, "hello".to_string());
    let batches = flush_pending_operations(&mut state);
    let described: Vec<_> = batches.iter().map(describe).collect();
    assert_eq!(
        described,
        vec![
            (
                "articles".to_string(),
                "body".to_string(),
                vec!["add 1 rust".to_string(), "delete 1".to_string(), "add 1 rust 2".to_string()]
            ),
            ("notes".to_string(), "text".to_string(), vec!["delete 7".to_string(), "add 8 hello".to_string()]),
        ]
    );
    assert!(state.is_empty());
    // The next transaction registers its callbacks again.
    assert!(queue_delete(&mut state, "articles", "body", 3));
}

#[test]
fn same_table_different_columns_are_different_indexes() {
    let mut state = WriterState::new();
    queue_delete(&mut state, "t", "a", 1);
    queue_delete(&mut state, "t", "b", 2);
    let batches = flush_pending_operations(&mut state);
    assert_eq!(batches.len(), 2);
    assert_eq!(batches[0].column_name, "a");
    assert_eq!(batches[1].column_name, "b");
}

#[test]
fn commit_with_nothing_queued_writes_nothing() {
    let mut state = WriterState::new();
    assert!(flush_pending_operations(&mut state).is_empty());
    assert!(state.is_empty());
}

#[test]
fn abort_discards_every_queued_operation() {
    let mut state = WriterState::new();
    queue_add(&mut state, "articles", "body", 1, "rust".to_string());
    queue_delete(&mut state, "articles", "body", 2);
    discard_pending_operations(&mut state);
    assert!(state.is_empty());
    assert!(flush_pending_operations(&mut state).is_empty());
    // After an abort the next transaction registers its callbacks again.
    assert!(ensure_callbacks_registered(&mut state));
    assert!(!ensure_callbacks_registered(&mut state));
}

#[test]
fn remove_writer_leaves_pending_operations_alone() {
    let mut state = WriterState::new();
    queue_add(&mut state, "articles", "body", 1, "rust".to_string());
    remove_writer("articles", "body");
    assert_eq!(flush_pending_operations(&mut state).len(), 1);
}

#[test]
fn pending_op_clones_and_prints() {
    let op = PendingOp::Add { pk: 5, content: "x".to_string() };
    let copy = op.clone();
    assert_eq!(format!("{:?}", copy), "Add { pk: 5, content: \"x\" }");
    assert_eq!(format!("{:?}", PendingOp::Delete { pk: -1 }), "Delete { pk: -1 }");
}

#[test]
fn aborted_operations_never_reach_a_later_commit() {
    let mut state = WriterState::new();
    queue_add(&mut state, "articles", "body", 1, "aborted".to_string());
    discard_pending_operations(&mut state);
    queue_delete(&mut state, "articles", "body", 2);
    let batches = flush_pending_operations(&mut state);
    assert_eq!(batches.len(), 1);
    assert_eq!(describe(&batches[0]).2, vec!["delete 2".to_string()]);
}
