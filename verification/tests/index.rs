use pdb::index::{
    build_schema, content_field_name, pk_field_name, FieldKind,
    create_trigger_sql, documents_from_rows, drop_trigger_sql, get_index_path, index_not_found,
    integer_type_name, join_path_str, pk_info_from_rows, pk_info_query, primary_key_count,
    primary_key_count_query, primary_key_from_rows, primary_key_query, register_metadata_sql,
    scan_rows_query, sync_trigger_name, unregister_metadata_sql, validate_index_creation,
    validate_pk_type, IndexError, PrimaryKeyInfo,
};

fn pk(column: &str, data_type: &str) -> PrimaryKeyInfo {
    PrimaryKeyInfo { column_name: column.to_string(), data_type: data_type.to_string() }
}

#[test]
fn index_path_is_under_pgdata() {
    assert_eq!(get_index_path(Some("/data"), "articles", "body"), "/data/pdb_indexes/articles_body");
    assert_eq!(get_index_path(Some("/data/"), "articles", "body"), "/data/pdb_indexes/articles_body");
    assert_eq!(
        get_index_path(None, "articles", "body"),
        "/var/lib/postgresql/data/pdb_indexes/articles_body"
    );
    assert_eq!(get_index_path(Some(""), "a", "b"), "pdb_indexes/a_b");
}

#[test]
fn index_path_agrees_with_pathbuf_join() {
    for (root, table, column) in [("/data", "articles", "body"), ("rel/dir/", "t", "c"), ("", "x", "y"), ("/d", "/abs", "c")] {
        let expected = std::path::PathBuf::from(root).join("pdb_indexes").join(format!("{}_{}", table, column));
        assert_eq!(get_index_path(Some(root), table, column), expected.to_str().unwrap());
    }
}

#[test]
fn join_follows_pathbuf_push() {
    assert_eq!(join_path_str("a", "b"), "a/b");
    assert_eq!(join_path_str("a/", "b"), "a/b");
    assert_eq!(join_path_str("a", "/b"), "/b");
    assert_eq!(join_path_str("", "b"), "b");
}

#[test]
fn catalog_sql_text() {
    assert_eq!(
        primary_key_query("articles"),
        "\n            SELECT a.attname::text, format_type(a.atttypid, a.atttypmod)::text\n            FROM pg_index i\n            JOIN pg_attribute a ON a.attrelid = i.indrelid\n                AND a.attnum = ANY(i.indkey)\n            WHERE i.indrelid = 'articles'::regclass\n            AND i.indisprimary\n        "
    );
    assert_eq!(
        primary_key_count_query("articles"),
        format!("SELECT COUNT(*) FROM ({}) t", primary_key_query("articles").trim())
    );
    assert_eq!(
        register_metadata_sql("articles", "body", &pk("id", "bigint")),
        "INSERT INTO pdb_index_metadata (table_name, column_name, pk_column, pk_type) \n         VALUES ('articles', 'body', 'id', 'bigint')"
    );
    assert_eq!(
        pk_info_query("articles", "body"),
        "SELECT pk_column, pk_type FROM pdb_index_metadata WHERE table_name = 'articles' AND column_name = 'body'"
    );
    assert_eq!(
        unregister_metadata_sql("articles", "body"),
        "DELETE FROM pdb_index_metadata WHERE table_name = 'articles' AND column_name = 'body'"
    );
    assert_eq!(scan_rows_query("id", "body", "articles"), "SELECT id::bigint, body FROM articles");
}

#[test]
fn trigger_sql_text() {
    assert_eq!(sync_trigger_name("articles", "body"), "pdb_sync_articles_body");
    assert_eq!(
        create_trigger_sql("articles", "body"),
        "CREATE TRIGGER pdb_sync_articles_body \n         AFTER INSERT OR UPDATE OR DELETE ON articles \n         FOR EACH ROW EXECUTE FUNCTION pdb_sync_trigger()"
    );
    assert_eq!(drop_trigger_sql("articles", "body"), "DROP TRIGGER IF EXISTS pdb_sync_articles_body ON articles");
}

#[test]
fn primary_key_needs_exactly_one_column() {
    assert_eq!(primary_key_count(&vec![Some(1)]), 1);
    assert_eq!(primary_key_count(&vec![]), 0);
    assert_eq!(primary_key_count(&vec![Some(2), None]), 2);
    let rows = || vec![(Some("id".to_string()), Some("integer".to_string()))];
    let info = primary_key_from_rows(1, rows()).unwrap();
    assert_eq!((info.column_name.as_str(), info.data_type.as_str()), ("id", "integer"));
    assert!(primary_key_from_rows(2, rows()).is_none());
    assert!(primary_key_from_rows(0, vec![]).is_none());
    assert!(primary_key_from_rows(1, vec![(Some("id".to_string()), None)]).is_none());
}

#[test]
fn recorded_key_is_last_complete_row() {
    let info = pk_info_from_rows(vec![
        (Some("a".to_string()), Some("integer".to_string())),
        (Some("b".to_string()), Some("bigint".to_string())),
        (None, Some("text".to_string())),
    ])
    .unwrap();
    assert_eq!((info.column_name.as_str(), info.data_type.as_str()), ("b", "bigint"));
    assert!(pk_info_from_rows(vec![]).is_none());
}

#[test]
fn integer_key_types_are_supported() {
    for t in ["integer", "INTEGER", "bigint", "smallint", "BigSerial", "serial"] {
        assert!(validate_pk_type(&pk("id", t)).is_ok(), "{}", t);
    }
    assert!(integer_type_name("bigint"));
    assert!(!integer_type_name("BIGINT"));
    assert!(!integer_type_name("uuid"));
}

#[test]
fn other_key_types_are_refused() {
    match validate_pk_type(&pk("id", "uuid")) {
        Err(e @ IndexError::UnsupportedPkType { .. }) => assert_eq!(
            e.message(),
            "Primary key type 'uuid' is not supported. Only integer types (integer, bigint, serial) are supported."
        ),
        _ => panic!("uuid must be refused"),
    }
    assert!(validate_pk_type(&pk("id", "text")).is_err());
}

#[test]
fn non_integer_types_containing_int_are_refused() {
    for t in ["interval", "INTERVAL", "point", "tinterval", "integer[]", "numeric", "uuid"] {
        assert!(matches!(validate_pk_type(&pk("id", t)), Err(IndexError::UnsupportedPkType { .. })), "{}", t);
        assert!(matches!(
            validate_index_creation("events", "body", Some(pk("id", t)), false),
            Err(IndexError::UnsupportedPkType { .. })
        ));
    }
    for t in ["int", "int2", "int4", "int8", "smallserial", "serial2", "serial4", "serial8"] {
        assert!(validate_pk_type(&pk("id", t)).is_ok(), "{}", t);
    }
}

#[test]
fn creation_checks_in_order() {
    match validate_index_creation("articles", "body", None, true) {
        Err(e @ IndexError::NoPrimaryKey { .. }) => assert_eq!(
            e.message(),
            "Table 'articles' must have a single-column primary key. Composite keys and tables without PKs are not supported."
        ),
        _ => panic!("expected NoPrimaryKey"),
    }
    assert!(matches!(
        validate_index_creation("articles", "body", Some(pk("id", "text")), true),
        Err(IndexError::UnsupportedPkType { .. })
    ));
    match validate_index_creation("articles", "body", Some(pk("id", "bigint")), true) {
        Err(e @ IndexError::AlreadyExists { .. }) => {
            assert_eq!(e.message(), "Index already exists on articles.body. Drop it first.")
        }
        _ => panic!("expected AlreadyExists"),
    }
    let info = validate_index_creation("articles", "body", Some(pk("id", "bigint")), false).unwrap();
    assert_eq!(info.column_name, "id");
}

#[test]
fn missing_index_message() {
    assert_eq!(
        index_not_found("articles", "body").message(),
        "Index not found for articles.body. Create it with create_bm25_index()."
    );
}

#[test]
fn only_rows_with_key_and_text_are_indexed() {
    let docs = documents_from_rows(vec![
        (Some(1), Some("a".to_string())),
        (None, Some("b".to_string())),
        (Some(3), None),
        (Some(4), Some("d".to_string())),
    ]);
    assert_eq!(docs, vec![(1, "a".to_string()), (4, "d".to_string())]);
}

#[test]
fn schema_is_key_then_text() {
    let fields = build_schema();
    assert_eq!(fields.len(), 2);
    assert_eq!((fields[0].name.as_str(), &fields[0].kind), ("pk", &FieldKind::IndexedStoredI64));
    assert_eq!((fields[1].name.as_str(), &fields[1].kind), ("content", &FieldKind::Text));
    assert_eq!(pk_field_name(), "pk");
    assert_eq!(content_field_name(), "content");
}
