//! Index management: where an index lives, which table key it follows, the
//! SQL that keeps its catalog row and sync trigger, and the checks made
//! before an index is created.

use vstd::prelude::*;
use vstd::string::*;

use crate::text::str_eq;
use crate::vecs::reversed;

verus! {

/// The directory used when `PGDATA` is not set.
pub open spec fn default_pgdata() -> Seq<char> {
    "/var/lib/postgresql/data"@
}

/// `base` extended by `part` with the Unix rule of `PathBuf::push`: an
/// absolute `part` replaces `base`; otherwise a `/` separates the two unless
/// `base` is empty or already ends with one.
pub open spec fn join_path(base: Seq<char>, part: Seq<char>) -> Seq<char> {
    if part.len() > 0 && part[0] == '/' {
        part
    } else if base.len() > 0 && base.last() != '/' {
        base + "/"@ + part
    } else {
        base + part
    }
}

/// The directory name of the index on `table`.`column`: `<table>_<column>`.
pub open spec fn index_dir_name(table: Seq<char>, column: Seq<char>) -> Seq<char> {
    table + "_"@ + column
}

/// Where the index on `table`.`column` is stored:
/// `$PGDATA/pdb_indexes/<table>_<column>`.
pub open spec fn index_path(pgdata: Option<Seq<char>>, table: Seq<char>, column: Seq<char>) -> Seq<char> {
    let root = match pgdata {
        Some(p) => p,
        None => default_pgdata(),
    };
    join_path(join_path(root, "pdb_indexes"@), index_dir_name(table, column))
}

fn ends_with_slash(s: &str) -> (b: bool)
    ensures
        b == (s@.len() > 0 && s@.last() == '/'),
{
    let n = s.unicode_len();
    n > 0 && s.get_char(n - 1) == '/'
}

/// Joins two path strings as `PathBuf::push` does on Unix.
pub fn join_path_str(base: &str, part: &str) -> (joined: String)
    ensures
        joined@ == join_path(base@, part@),
{
    let part_len = part.unicode_len();
    if part_len > 0 && part.get_char(0) == '/' {
        return String::from_str(part);
    }
    let base_len = base.unicode_len();
    let mut joined = String::from_str(base);
    if base_len > 0 && !ends_with_slash(base) {
        joined.append("/");
    }
    joined.append(part);
    joined
}

/// The path of the index on `table_name`.`column_name`, under `pgdata`
/// (the value of `PGDATA`, or `None` when it is unset or unreadable).
pub fn get_index_path(pgdata: Option<&str>, table_name: &str, column_name: &str) -> (path: String)
    ensures
        path@ == index_path(
            match pgdata {
                Some(p) => Some(p@),
                None => None,
            },
            table_name@,
            column_name@,
        ),
{
    let root = match pgdata {
        Some(p) => String::from_str(p),
        None => String::from_str("/var/lib/postgresql/data"),
    };
    let indexes = join_path_str(root.as_str(), "pdb_indexes");
    let mut name = String::from_str(table_name);
    name.append("_");
    name.append(column_name);
    join_path_str(indexes.as_str(), name.as_str())
}

/// Primary key information for a table.
#[derive(Clone, Debug)]
pub struct PrimaryKeyInfo {
    /// Name of the primary key column.
    pub column_name: String,
    /// Data type of the primary key (e.g. "integer", "bigint").
    pub data_type: String,
}

fn concat2(a: &str, b: &str) -> (s: String)
    ensures
        s@ == a@ + b@,
{
    let mut s = String::from_str(a);
    s.append(b);
    s
}

fn concat3(a: &str, b: &str, c: &str) -> (s: String)
    ensures
        s@ == a@ + b@ + c@,
{
    let mut s = String::from_str(a);
    s.append(b);
    s.append(c);
    s
}

fn concat5(a: &str, b: &str, c: &str, d: &str, e: &str) -> (s: String)
    ensures
        s@ == a@ + b@ + c@ + d@ + e@,
{
    let mut s = concat3(a, b, c);
    s.append(d);
    s.append(e);
    s
}

// ---------------------------------------------------------------------------
// SQL text
// ---------------------------------------------------------------------------

/// The catalog query for the primary key columns of `table`, with their
/// types.
pub open spec fn primary_key_query_text(table: Seq<char>) -> Seq<char> {
    "\n            SELECT a.attname::text, format_type(a.atttypid, a.atttypmod)::text\n            FROM pg_index i\n            JOIN pg_attribute a ON a.attrelid = i.indrelid\n                AND a.attnum = ANY(i.indkey)\n            WHERE i.indrelid = '"@
        + table + "'::regclass\n            AND i.indisprimary\n        "@
}

/// The query counting the primary key columns of `table`: the key query,
/// without its surrounding white space, as a subquery.
pub open spec fn primary_key_count_query_text(table: Seq<char>) -> Seq<char> {
    "SELECT COUNT(*) FROM (SELECT a.attname::text, format_type(a.atttypid, a.atttypmod)::text\n            FROM pg_index i\n            JOIN pg_attribute a ON a.attrelid = i.indrelid\n                AND a.attnum = ANY(i.indkey)\n            WHERE i.indrelid = '"@
        + table + "'::regclass\n            AND i.indisprimary) t"@
}

/// Builds the catalog query for the primary key columns of `table_name`.
pub fn primary_key_query(table_name: &str) -> (q: String)
    ensures
        q@ == primary_key_query_text(table_name@),
{
    concat3(
        "\n            SELECT a.attname::text, format_type(a.atttypid, a.atttypmod)::text\n            FROM pg_index i\n            JOIN pg_attribute a ON a.attrelid = i.indrelid\n                AND a.attnum = ANY(i.indkey)\n            WHERE i.indrelid = '",
        table_name,
        "'::regclass\n            AND i.indisprimary\n        ",
    )
}

/// Builds the query counting the primary key columns of `table_name`.
pub fn primary_key_count_query(table_name: &str) -> (q: String)
    ensures
        q@ == primary_key_count_query_text(table_name@),
{
    concat3(
        "SELECT COUNT(*) FROM (SELECT a.attname::text, format_type(a.atttypid, a.atttypmod)::text\n            FROM pg_index i\n            JOIN pg_attribute a ON a.attrelid = i.indrelid\n                AND a.attnum = ANY(i.indkey)\n            WHERE i.indrelid = '",
        table_name,
        "'::regclass\n            AND i.indisprimary) t",
    )
}

/// The statement recording an index and its table's key in the catalog.
pub open spec fn register_metadata_text(
    table: Seq<char>,
    column: Seq<char>,
    pk_column: Seq<char>,
    pk_type: Seq<char>,
) -> Seq<char> {
    "INSERT INTO pdb_index_metadata (table_name, column_name, pk_column, pk_type) \n         VALUES ('"@
        + table + "', '"@ + column + "', '"@ + pk_column + "', '"@ + pk_type + "')"@
}

/// Builds the statement recording the index on `table_name`.`column_name`.
pub fn register_metadata_sql(table_name: &str, column_name: &str, pk_info: &PrimaryKeyInfo) -> (q: String)
    ensures
        q@ == register_metadata_text(
            table_name@,
            column_name@,
            pk_info.column_name@,
            pk_info.data_type@,
        ),
{
    let mut q = concat5(
        "INSERT INTO pdb_index_metadata (table_name, column_name, pk_column, pk_type) \n         VALUES ('",
        table_name,
        "', '",
        column_name,
        "', '",
    );
    q.append(pk_info.column_name.as_str());
    q.append("', '");
    q.append(pk_info.data_type.as_str());
    q.append("')");
    q
}

/// The query reading the key recorded for an index.
pub open spec fn pk_info_query_text(table: Seq<char>, column: Seq<char>) -> Seq<char> {
    "SELECT pk_column, pk_type FROM pdb_index_metadata WHERE table_name = '"@ + table
        + "' AND column_name = '"@ + column + "'"@
}

/// Builds the query reading the key recorded for `table_name`.`column_name`.
pub fn pk_info_query(table_name: &str, column_name: &str) -> (q: String)
    ensures
        q@ == pk_info_query_text(table_name@, column_name@),
{
    concat5(
        "SELECT pk_column, pk_type FROM pdb_index_metadata WHERE table_name = '",
        table_name,
        "' AND column_name = '",
        column_name,
        "'",
    )
}

/// The statement removing an index from the catalog.
pub open spec fn unregister_metadata_text(table: Seq<char>, column: Seq<char>) -> Seq<char> {
    "DELETE FROM pdb_index_metadata WHERE table_name = '"@ + table + "' AND column_name = '"@
        + column + "'"@
}

/// Builds the statement removing `table_name`.`column_name` from the catalog.
pub fn unregister_metadata_sql(table_name: &str, column_name: &str) -> (q: String)
    ensures
        q@ == unregister_metadata_text(table_name@, column_name@),
{
    concat5(
        "DELETE FROM pdb_index_metadata WHERE table_name = '",
        table_name,
        "' AND column_name = '",
        column_name,
        "'",
    )
}

/// The name of the sync trigger of an index: `pdb_sync_<table>_<column>`.
pub open spec fn sync_trigger_name_text(table: Seq<char>, column: Seq<char>) -> Seq<char> {
    "pdb_sync_"@ + table + "_"@ + column
}

/// Builds the name of the sync trigger of `table_name`.`column_name`.
pub fn sync_trigger_name(table_name: &str, column_name: &str) -> (name: String)
    ensures
        name@ == sync_trigger_name_text(table_name@, column_name@),
{
    let mut name = concat3("pdb_sync_", table_name, "_");
    name.append(column_name);
    name
}

/// The statement creating the row-level sync trigger of an index.
pub open spec fn create_trigger_text(table: Seq<char>, column: Seq<char>) -> Seq<char> {
    "CREATE TRIGGER "@ + sync_trigger_name_text(table, column)
        + " \n         AFTER INSERT OR UPDATE OR DELETE ON "@ + table
        + " \n         FOR EACH ROW EXECUTE FUNCTION pdb_sync_trigger()"@
}

/// Builds the statement creating the sync trigger of
/// `table_name`.`column_name`.
pub fn create_trigger_sql(table_name: &str, column_name: &str) -> (q: String)
    ensures
        q@ == create_trigger_text(table_name@, column_name@),
{
    let name = sync_trigger_name(table_name, column_name);
    let mut q = concat3("CREATE TRIGGER ", name.as_str(), " \n         AFTER INSERT OR UPDATE OR DELETE ON ");
    q.append(table_name);
    q.append(" \n         FOR EACH ROW EXECUTE FUNCTION pdb_sync_trigger()");
    q
}

/// The statement dropping the sync trigger of an index, if it exists.
pub open spec fn drop_trigger_text(table: Seq<char>, column: Seq<char>) -> Seq<char> {
    "DROP TRIGGER IF EXISTS "@ + sync_trigger_name_text(table, column) + " ON "@ + table
}

/// Builds the statement dropping the sync trigger of
/// `table_name`.`column_name`.
pub fn drop_trigger_sql(table_name: &str, column_name: &str) -> (q: String)
    ensures
        q@ == drop_trigger_text(table_name@, column_name@),
{
    let name = sync_trigger_name(table_name, column_name);
    let mut q = concat3("DROP TRIGGER IF EXISTS ", name.as_str(), " ON ");
    q.append(table_name);
    q
}

/// The query reading every row's key (as bigint) and indexed text.
pub open spec fn scan_rows_query_text(pk_column: Seq<char>, column: Seq<char>, table: Seq<char>) -> Seq<char> {
    "SELECT "@ + pk_column + "::bigint, "@ + column + " FROM "@ + table
}

/// Builds the query reading every row of `table_name` to index.
pub fn scan_rows_query(pk_column: &str, column_name: &str, table_name: &str) -> (q: String)
    ensures
        q@ == scan_rows_query_text(pk_column@, column_name@, table_name@),
{
    let mut q = concat5("SELECT ", pk_column, "::bigint, ", column_name, " FROM ");
    q.append(table_name);
    q
}

// ---------------------------------------------------------------------------
// Reading query results
// ---------------------------------------------------------------------------

/// The value taken from the rows of a single-value query: the last value
/// that was read, or 0 when none was.
pub open spec fn last_value_or_zero(rows: Seq<Option<i64>>) -> i64
    decreases rows.len(),
{
    if rows.len() == 0 {
        0
    } else {
        match rows.last() {
            Some(v) => v,
            None => last_value_or_zero(rows.drop_last()),
        }
    }
}

/// The last row whose two text fields were both read, as key information.
pub open spec fn last_complete_pair(rows: Seq<(Option<String>, Option<String>)>) -> Option<(Seq<char>, Seq<char>)>
    decreases rows.len(),
{
    if rows.len() == 0 {
        None
    } else {
        match rows.last() {
            (Some(a), Some(b)) => Some((a@, b@)),
            _ => last_complete_pair(rows.drop_last()),
        }
    }
}

/// The view of optional key information.
pub open spec fn pk_info_view(p: Option<PrimaryKeyInfo>) -> Option<(Seq<char>, Seq<char>)> {
    match p {
        Some(i) => Some((i.column_name@, i.data_type@)),
        None => None,
    }
}

/// The number of primary key columns, from the rows of the count query
/// (`None` for a value that is NULL or could not be read).
pub fn primary_key_count(rows: &Vec<Option<i64>>) -> (count: i64)
    ensures
        count == last_value_or_zero(rows@),
{
    let mut count: i64 = 0;
    let mut i: usize = 0;
    while i < rows.len()
        invariant
            i <= rows.len(),
            count == last_value_or_zero(rows@.take(i as int)),
        decreases rows.len() - i,
    {
        assert(rows@.take(i + 1).drop_last() =~= rows@.take(i as int));
        if let Some(c) = rows[i] {
            count = c;
        }
        i = i + 1;
    }
    assert(rows@.take(rows.len() as int) =~= rows@);
    count
}

fn last_complete(rows: Vec<(Option<String>, Option<String>)>) -> (info: Option<PrimaryKeyInfo>)
    ensures
        pk_info_view(info) == last_complete_pair(rows@),
{
    let ghost all = rows@;
    let n = rows.len();
    let mut pending = reversed(rows);
    let mut info: Option<PrimaryKeyInfo> = None;
    let mut i: usize = 0;
    while i < n
        invariant
            i <= n,
            n == all.len(),
            pending@ == all.reverse().take((n - i) as int),
            pk_info_view(info) == last_complete_pair(all.take(i as int)),
        decreases n - i,
    {
        assert(all.take(i + 1).drop_last() =~= all.take(i as int));
        assert(pending@[pending.len() - 1] == all[i as int]);
        let row = pending.pop().unwrap();
        assert(pending@ =~= all.reverse().take((n - i - 1) as int));
        if let (Some(column_name), Some(data_type)) = row {
            info = Some(PrimaryKeyInfo { column_name, data_type });
        }
        i = i + 1;
    }
    assert(all.take(n as int) =~= all);
    info
}

/// The primary key of a table from the catalog: present only when the table
/// has exactly one key column (`key_count == 1`); then the last row of
/// `key_rows` (column name, type) whose two fields were read.
pub fn primary_key_from_rows(key_count: i64, key_rows: Vec<(Option<String>, Option<String>)>) -> (info: Option<PrimaryKeyInfo>)
    ensures
        pk_info_view(info) == (if key_count == 1 {
            last_complete_pair(key_rows@)
        } else {
            None
        }),
{
    if key_count == 1 {
        last_complete(key_rows)
    } else {
        None
    }
}

/// The key recorded for an index, from the rows of its catalog query: the
/// last row whose two fields were read.
pub fn pk_info_from_rows(rows: Vec<(Option<String>, Option<String>)>) -> (info: Option<PrimaryKeyInfo>)
    ensures
        pk_info_view(info) == last_complete_pair(rows@),
{
    last_complete(rows)
}

// ---------------------------------------------------------------------------
// Checks made before an index is created
// ---------------------------------------------------------------------------

/// Why an index operation was refused.
#[derive(Debug)]
pub enum IndexError {
    /// The table has no primary key, or a composite one.
    NoPrimaryKey { table_name: String },
    /// The primary key's type is not an integer type.
    UnsupportedPkType { data_type: String },
    /// An index already exists on the column.
    AlreadyExists { table_name: String, column_name: String },
    /// No index exists on the column.
    NotFound { table_name: String, column_name: String },
}

/// The mathematical value of an [`IndexError`].
pub enum IndexErrorView {
    NoPrimaryKey { table: Seq<char> },
    UnsupportedPkType { data_type: Seq<char> },
    AlreadyExists { table: Seq<char>, column: Seq<char> },
    NotFound { table: Seq<char>, column: Seq<char> },
}

impl View for IndexError {
    type V = IndexErrorView;

    open spec fn view(&self) -> IndexErrorView {
        match self {
            IndexError::NoPrimaryKey { table_name } => IndexErrorView::NoPrimaryKey {
                table: table_name@,
            },
            IndexError::UnsupportedPkType { data_type } => IndexErrorView::UnsupportedPkType {
                data_type: data_type@,
            },
            IndexError::AlreadyExists { table_name, column_name } => IndexErrorView::AlreadyExists {
                table: table_name@,
                column: column_name@,
            },
            IndexError::NotFound { table_name, column_name } => IndexErrorView::NotFound {
                table: table_name@,
                column: column_name@,
            },
        }
    }
}

/// The text reported for an error.
pub open spec fn index_error_text(e: IndexErrorView) -> Seq<char> {
    match e {
        IndexErrorView::NoPrimaryKey { table } => "Table '"@ + table
            + "' must have a single-column primary key. Composite keys and tables without PKs are not supported."@,
        IndexErrorView::UnsupportedPkType { data_type } => "Primary key type '"@ + data_type
            + "' is not supported. Only integer types (integer, bigint, serial) are supported."@,
        IndexErrorView::AlreadyExists { table, column } => "Index already exists on "@ + table
            + "."@ + column + ". Drop it first."@,
        IndexErrorView::NotFound { table, column } => "Index not found for "@ + table + "."@
            + column + ". Create it with create_bm25_index()."@,
    }
}

impl IndexError {
    /// The error's text, as the extension reports it.
    pub fn message(&self) -> (m: String)
        ensures
            m@ == index_error_text(self@),
    {
        match self {
            IndexError::NoPrimaryKey { table_name } => concat3(
                "Table '",
                table_name.as_str(),
                "' must have a single-column primary key. Composite keys and tables without PKs are not supported.",
            ),
            IndexError::UnsupportedPkType { data_type } => concat3(
                "Primary key type '",
                data_type.as_str(),
                "' is not supported. Only integer types (integer, bigint, serial) are supported.",
            ),
            IndexError::AlreadyExists { table_name, column_name } => concat5(
                "Index already exists on ",
                table_name.as_str(),
                ".",
                column_name.as_str(),
                ". Drop it first.",
            ),
            IndexError::NotFound { table_name, column_name } => concat5(
                "Index not found for ",
                table_name.as_str(),
                ".",
                column_name.as_str(),
                ". Create it with create_bm25_index().",
            ),
        }
    }
}

/// The lowercase form of a text, as `str::to_lowercase` computes it
/// (Unicode lowercase mapping).
pub uninterp spec fn lowercase_of(s: Seq<char>) -> Seq<char>;

/// Calls `str::to_lowercase`; the result is the lowercase mapping of the
/// argument, which is a function of the argument alone.
#[verifier::external_body]
fn to_lowercase(s: &str) -> (lower: String)
    ensures
        lower@ == lowercase_of(s@),
{
    s.to_lowercase()
}

/// Whether a lowercased type name names an integer type: one of PostgreSQL's
/// integer types (`smallint`, `integer`, `bigint` and their `int`, `int2`,
/// `int4`, `int8` spellings) or serial types (`smallserial`, `serial`,
/// `bigserial`, `serial2`, `serial4`, `serial8`).
pub open spec fn is_integer_type_name(lower: Seq<char>) -> bool {
    ||| lower == "smallint"@
    ||| lower == "integer"@
    ||| lower == "bigint"@
    ||| lower == "int"@
    ||| lower == "int2"@
    ||| lower == "int4"@
    ||| lower == "int8"@
    ||| lower == "smallserial"@
    ||| lower == "serial"@
    ||| lower == "bigserial"@
    ||| lower == "serial2"@
    ||| lower == "serial4"@
    ||| lower == "serial8"@
}

/// Whether the lowercased type name `lower` names an integer type.
pub fn integer_type_name(lower: &str) -> (b: bool)
    ensures
        b == is_integer_type_name(lower@),
{
    str_eq(lower, "smallint") || str_eq(lower, "integer") || str_eq(lower, "bigint") || str_eq(
        lower,
        "int",
    ) || str_eq(lower, "int2") || str_eq(lower, "int4") || str_eq(lower, "int8") || str_eq(
        lower,
        "smallserial",
    ) || str_eq(lower, "serial") || str_eq(lower, "bigserial") || str_eq(lower, "serial2")
        || str_eq(lower, "serial4") || str_eq(lower, "serial8")
}

/// Whether a key type can be indexed: its name, lowercased, names an
/// integer type (so every key converts to a 64-bit integer).
pub open spec fn supported_pk_type(data_type: Seq<char>) -> bool {
    is_integer_type_name(lowercase_of(data_type))
}

/// Checks the key type of a table.
pub fn validate_pk_type(pk_info: &PrimaryKeyInfo) -> (r: Result<(), IndexError>)
    ensures
        r is Ok <==> supported_pk_type(pk_info.data_type@),
        r matches Err(e) ==> e@ == (IndexErrorView::UnsupportedPkType {
            data_type: pk_info.data_type@,
        }),
{
    let lower = to_lowercase(pk_info.data_type.as_str());
    if integer_type_name(lower.as_str()) {
        Ok(())
    } else {
        Err(IndexError::UnsupportedPkType { data_type: pk_info.data_type.clone() })
    }
}

/// The outcome of the checks made before an index is created: the table
/// must have a single-column key, of an integer type, and the index must not
/// exist yet; checked in that order.
pub open spec fn creation_check(
    table: Seq<char>,
    column: Seq<char>,
    pk: Option<(Seq<char>, Seq<char>)>,
    index_exists: bool,
) -> Result<(Seq<char>, Seq<char>), IndexErrorView> {
    match pk {
        None => Err(IndexErrorView::NoPrimaryKey { table }),
        Some((pk_column, pk_type)) => if !supported_pk_type(pk_type) {
            Err(IndexErrorView::UnsupportedPkType { data_type: pk_type })
        } else if index_exists {
            Err(IndexErrorView::AlreadyExists { table, column })
        } else {
            Ok((pk_column, pk_type))
        },
    }
}

/// Makes the checks that precede creating an index on
/// `table_name`.`column_name`: `pk_info` is the table's detected key and
/// `index_exists` whether the index directory exists. Returns the key to
/// index by.
pub fn validate_index_creation(
    table_name: &str,
    column_name: &str,
    pk_info: Option<PrimaryKeyInfo>,
    index_exists: bool,
) -> (r: Result<PrimaryKeyInfo, IndexError>)
    ensures
        match (r, creation_check(table_name@, column_name@, pk_info_view(pk_info), index_exists)) {
            (Ok(info), Ok(expected)) => (info.column_name@, info.data_type@) == expected,
            (Err(e), Err(expected)) => e@ == expected,
            _ => false,
        },
{
    let info = match pk_info {
        None => {
            return Err(IndexError::NoPrimaryKey { table_name: String::from_str(table_name) });
        },
        Some(info) => info,
    };
    match validate_pk_type(&info) {
        Err(e) => {
            return Err(e);
        },
        Ok(()) => {},
    }
    if index_exists {
        return Err(
            IndexError::AlreadyExists {
                table_name: String::from_str(table_name),
                column_name: String::from_str(column_name),
            },
        );
    }
    Ok(info)
}

/// The error for an index that does not exist.
pub fn index_not_found(table_name: &str, column_name: &str) -> (e: IndexError)
    ensures
        e@ == (IndexErrorView::NotFound { table: table_name@, column: column_name@ }),
{
    IndexError::NotFound {
        table_name: String::from_str(table_name),
        column_name: String::from_str(column_name),
    }
}

/// The documents to index from the rows read from the table: one per row
/// whose key and text are both present, in row order.
pub open spec fn documents_of(rows: Seq<(Option<i64>, Option<String>)>) -> Seq<(i64, Seq<char>)>
    decreases rows.len(),
{
    if rows.len() == 0 {
        seq![]
    } else {
        let rest = documents_of(rows.drop_last());
        match rows.last() {
            (Some(pk), Some(text)) => rest.push((pk, text@)),
            _ => rest,
        }
    }
}

/// The view of a list of documents.
pub open spec fn documents_view(docs: Seq<(i64, String)>) -> Seq<(i64, Seq<char>)> {
    docs.map_values(|d: (i64, String)| (d.0, d.1@))
}

/// Selects the documents to index from the table's rows (key, text), each
/// `None` when NULL or unreadable.
pub fn documents_from_rows(rows: Vec<(Option<i64>, Option<String>)>) -> (docs: Vec<(i64, String)>)
    ensures
        documents_view(docs@) == documents_of(rows@),
{
    let ghost all = rows@;
    let n = rows.len();
    let mut pending = reversed(rows);
    let mut docs: Vec<(i64, String)> = Vec::new();
    let mut i: usize = 0;
    while i < n
        invariant
            i <= n,
            n == all.len(),
            pending@ == all.reverse().take((n - i) as int),
            documents_view(docs@) == documents_of(all.take(i as int)),
        decreases n - i,
    {
        assert(all.take(i + 1).drop_last() =~= all.take(i as int));
        assert(pending@[pending.len() - 1] == all[i as int]);
        let row = pending.pop().unwrap();
        assert(pending@ =~= all.reverse().take((n - i - 1) as int));
        let ghost before = docs@;
        if let (Some(pk), Some(text)) = row {
            docs.push((pk, text));
            assert(documents_view(docs@) =~= documents_view(before).push((pk, text@)));
        }
        i = i + 1;
    }
    assert(all.take(n as int) =~= all);
    docs
}

// ---------------------------------------------------------------------------
// The index schema
// ---------------------------------------------------------------------------

/// How a field of the index is stored.
#[derive(Debug, PartialEq, Eq, Structural)]
pub enum FieldKind {
    /// A 64-bit integer, indexed (so documents can be deleted by it) and
    /// stored (so hits can be mapped back to rows).
    IndexedStoredI64,
    /// Tokenized, searchable text.
    Text,
}

/// A field of the index schema.
#[derive(Debug)]
pub struct FieldDef {
    pub name: String,
    pub kind: FieldKind,
}

/// The name of the key field.
pub open spec fn pk_field_text() -> Seq<char> {
    "pk"@
}

/// The name of the text field.
pub open spec fn content_field_text() -> Seq<char> {
    "content"@
}

/// The schema of every index: the row's key, then its text.
pub open spec fn index_schema() -> Seq<(Seq<char>, FieldKind)> {
    seq![(pk_field_text(), FieldKind::IndexedStoredI64), (content_field_text(), FieldKind::Text)]
}

/// The name of the key field, `pk`.
pub fn pk_field_name() -> (name: String)
    ensures
        name@ == pk_field_text(),
{
    String::from_str("pk")
}

/// The name of the text field, `content`.
pub fn content_field_name() -> (name: String)
    ensures
        name@ == content_field_text(),
{
    String::from_str("content")
}

/// Describes the schema of an index: `pk` (indexed, stored 64-bit integer)
/// and `content` (text), in that order.
pub fn build_schema() -> (fields: Vec<FieldDef>)
    ensures
        fields@.map_values(|f: FieldDef| (f.name@, f.kind)) == index_schema(),
{
    let mut fields = Vec::new();
    fields.push(FieldDef { name: pk_field_name(), kind: FieldKind::IndexedStoredI64 });
    fields.push(FieldDef { name: content_field_name(), kind: FieldKind::Text });
    assert(fields@.map_values(|f: FieldDef| (f.name@, f.kind)) =~= index_schema());
    fields
}

// ---------------------------------------------------------------------------
// Laws
// ---------------------------------------------------------------------------

/// The key count is the value the count query returned: the last value read
/// from its rows (not how many rows there were), 0 when none was read.
pub proof fn lemma_key_count_is_value_read(rows: Seq<Option<i64>>)
    ensures
        forall|i: int|
            0 <= i < rows.len() && #[trigger] rows[i] is Some && (forall|j: int|
                i < j < rows.len() ==> rows[j] is None) ==> last_value_or_zero(rows) == rows[i]->0,
        (forall|i: int| 0 <= i < rows.len() ==> #[trigger] rows[i] is None) ==> last_value_or_zero(rows)
            == 0,
    decreases rows.len(),
{
    if rows.len() > 0 {
        let init = rows.drop_last();
        lemma_key_count_is_value_read(init);
        assert forall|i: int|
            0 <= i < rows.len() && #[trigger] rows[i] is Some && (forall|j: int|
                i < j < rows.len() ==> rows[j] is None) implies last_value_or_zero(rows) == rows[i]->0 by {
            if i < rows.len() - 1 {
                assert(rows[rows.len() - 1] is None);
                assert(init[i] == rows[i]);
                assert forall|j: int| i < j < init.len() implies init[j] is None by {
                    assert(init[j] == rows[j]);
                }
            }
        }
        if forall|i: int| 0 <= i < rows.len() ==> #[trigger] rows[i] is None {
            assert forall|i: int| 0 <= i < init.len() implies #[trigger] init[i] is None by {
                assert(init[i] == rows[i]);
            }
            assert(rows[rows.len() - 1] is None);
        }
    }
}

/// Integer key types are accepted: a detected key whose type name,
/// lowercased, is one of PostgreSQL's integer or serial type names passes
/// the creation checks when no index exists yet, and the key is kept.
pub proof fn lemma_integer_keys_accepted(
    table: Seq<char>,
    column: Seq<char>,
    pk_column: Seq<char>,
    pk_type: Seq<char>,
)
    requires
        lowercase_of(pk_type) == "smallint"@ || lowercase_of(pk_type) == "integer"@
            || lowercase_of(pk_type) == "bigint"@ || lowercase_of(pk_type) == "int"@
            || lowercase_of(pk_type) == "int2"@ || lowercase_of(pk_type) == "int4"@
            || lowercase_of(pk_type) == "int8"@ || lowercase_of(pk_type) == "smallserial"@
            || lowercase_of(pk_type) == "serial"@ || lowercase_of(pk_type) == "bigserial"@
            || lowercase_of(pk_type) == "serial2"@ || lowercase_of(pk_type) == "serial4"@
            || lowercase_of(pk_type) == "serial8"@,
    ensures
        creation_check(table, column, Some((pk_column, pk_type)), false) == Ok::<
            (Seq<char>, Seq<char>),
            IndexErrorView,
        >((pk_column, pk_type)),
{
}

/// The creation checks refuse a detected key exactly when the key-type check
/// refuses it or the index exists: with a key present they pass exactly when
/// its type is supported and no index exists, and then they keep the key.
pub proof fn lemma_creation_follows_key_type_check(
    table: Seq<char>,
    column: Seq<char>,
    pk_column: Seq<char>,
    pk_type: Seq<char>,
    index_exists: bool,
)
    ensures
        creation_check(table, column, Some((pk_column, pk_type)), index_exists) is Ok <==> (
        supported_pk_type(pk_type) && !index_exists),
        creation_check(table, column, Some((pk_column, pk_type)), index_exists) is Ok
            ==> creation_check(table, column, Some((pk_column, pk_type)), index_exists)->Ok_0 == (
            pk_column,
            pk_type,
        ),
        creation_check(table, column, None, index_exists) is Err,
{
}

/// Every row with a key and a text becomes one document carrying that key
/// and that row's whole text, in row order; a row missing either field adds
/// nothing; and the documents of consecutive row lists follow each other.
pub proof fn lemma_documents_keep_rows(
    rows: Seq<(Option<i64>, Option<String>)>,
    more: Seq<(Option<i64>, Option<String>)>,
)
    ensures
        (forall|i: int| 0 <= i < rows.len() ==> (#[trigger] rows[i]).0 is Some && rows[i].1 is Some)
            ==> documents_of(rows).len() == rows.len() && forall|i: int|
            0 <= i < rows.len() ==> #[trigger] documents_of(rows)[i] == (
                rows[i].0->0,
                rows[i].1->0@,
            ),
        (forall|i: int| 0 <= i < rows.len() ==> (#[trigger] rows[i]).0 is None || rows[i].1 is None)
            ==> documents_of(rows) == Seq::<(i64, Seq<char>)>::empty(),
        documents_of(rows + more) == documents_of(rows) + documents_of(more),
    decreases more.len(),
{
    lemma_documents_complete(rows);
    lemma_documents_skipped(rows);
    if more.len() == 0 {
        assert(rows + more =~= rows);
        assert(documents_of(rows) + documents_of(more) =~= documents_of(rows));
    } else {
        lemma_documents_keep_rows(rows, more.drop_last());
        assert((rows + more).drop_last() =~= rows + more.drop_last());
        assert((rows + more).last() == more.last());
        match more.last() {
            (Some(pk), Some(text)) => {
                assert(documents_of(rows) + documents_of(more) =~= (documents_of(rows)
                    + documents_of(more.drop_last())).push((pk, text@)));
            },
            _ => {},
        }
    }
}

proof fn lemma_documents_complete(rows: Seq<(Option<i64>, Option<String>)>)
    ensures
        (forall|i: int| 0 <= i < rows.len() ==> (#[trigger] rows[i]).0 is Some && rows[i].1 is Some)
            ==> documents_of(rows).len() == rows.len() && forall|i: int|
            0 <= i < rows.len() ==> #[trigger] documents_of(rows)[i] == (
                rows[i].0->0,
                rows[i].1->0@,
            ),
    decreases rows.len(),
{
    if rows.len() > 0 && forall|i: int| 0 <= i < rows.len() ==> (#[trigger] rows[i]).0 is Some
        && rows[i].1 is Some {
        let init = rows.drop_last();
        assert forall|i: int| 0 <= i < init.len() implies (#[trigger] init[i]).0 is Some
            && init[i].1 is Some by {
            assert(init[i] == rows[i]);
        }
        lemma_documents_complete(init);
        assert(rows[rows.len() - 1].0 is Some && rows[rows.len() - 1].1 is Some);
        assert forall|i: int| 0 <= i < rows.len() implies #[trigger] documents_of(rows)[i] == (
            rows[i].0->0,
            rows[i].1->0@,
        ) by {
            if i < init.len() {
                assert(init[i] == rows[i]);
            }
        }
    }
}

proof fn lemma_documents_skipped(rows: Seq<(Option<i64>, Option<String>)>)
    ensures
        (forall|i: int| 0 <= i < rows.len() ==> (#[trigger] rows[i]).0 is None || rows[i].1 is None)
            ==> documents_of(rows) == Seq::<(i64, Seq<char>)>::empty(),
    decreases rows.len(),
{
    if rows.len() > 0 && forall|i: int| 0 <= i < rows.len() ==> (#[trigger] rows[i]).0 is None
        || rows[i].1 is None {
        let init = rows.drop_last();
        assert forall|i: int| 0 <= i < init.len() implies (#[trigger] init[i]).0 is None
            || init[i].1 is None by {
            assert(init[i] == rows[i]);
        }
        lemma_documents_skipped(init);
        assert(rows[rows.len() - 1].0 is None || rows[rows.len() - 1].1 is None);
    }
}

} // verus!
