use vstd::prelude::*;
use crate::text::{utf8, lex_lt, lex_le, has_prefix, lemma_lex_total, lemma_prefix_not_after, lemma_prefix_interval};
use crate::assoc::has_key;
use crate::props::Pair;

verus! {

/// The database of `redb`, as an opaque value.
#[verifier::external_type_specification]
#[verifier::external_body]
pub struct ExDatabase(redb::Database);

/// The error of `redb`, as an opaque value.
#[verifier::external_type_specification]
#[verifier::external_body]
pub struct ExStoreError(redb::Error);

/// The read transaction of `redb`, as an opaque value.
#[verifier::external_type_specification]
#[verifier::external_body]
pub struct ExReadTransaction(redb::ReadTransaction);

/// The write transaction of `redb`, as an opaque value.
#[verifier::external_type_specification]
#[verifier::external_body]
pub struct ExWriteTransaction(redb::WriteTransaction);

/// The name of the table of node ids.
pub const NODES_TABLE: &'static str = "nodes";

/// The name of the table of edges.
pub const EDGES_TABLE: &'static str = "edges";

/// The name of the table of node properties.
pub const NODE_DATA_TABLE: &'static str = "node_data";

/// The name of the table of edge properties.
pub const EDGE_DATA_TABLE: &'static str = "edge_data";

/// The name of the index of node properties.
pub const NODE_INDEX_TABLE: &'static str = "node_index";

/// The name of the index of edge properties.
pub const EDGE_INDEX_TABLE: &'static str = "edge_index";

/// The name of the second index of node properties, for geohash prefixes.
pub const GEO_INDEX_TABLE: &'static str = "geo_index";

/// The name of the table of field whitelists.
pub const SCHEMA_TABLE: &'static str = "schema";

/// A table of string rows as one read transaction sees it: a `redb`
/// read-only table. Its rows never change.
#[verifier::external_body]
pub struct Snapshot {
    inner: redb::ReadOnlyTable<&'static str, &'static str>,
}

/// A table of string rows inside a write transaction: a `redb` table.
#[verifier::external_body]
pub struct WriteTable<'txn> {
    inner: redb::Table<'txn, &'static str, &'static str>,
}

/// A forward walk over rows of a snapshot: a `redb` range.
#[verifier::external_body]
pub struct Cursor {
    inner: redb::Range<'static, &'static str, &'static str>,
}

/// The rows of a snapshot: the bytes of each value under the bytes of its
/// key.
pub uninterp spec fn snapshot_rows(table: &Snapshot) -> Map<Seq<u8>, Seq<u8>>;

/// The rows of a table in a write transaction.
pub uninterp spec fn table_rows(table: &WriteTable<'_>) -> Map<Seq<u8>, Seq<u8>>;

/// The rows that a cursor has yet to give, in the order in which it gives
/// them.
pub uninterp spec fn cursor_rest(cursor: &Cursor) -> Seq<(Seq<u8>, Seq<u8>)>;

/// `rows` are the rows of `table` whose key is `start` or comes after it, in
/// ascending order of their keys.
pub open spec fn is_scan_from(rows: Seq<Pair>, table: Map<Seq<u8>, Seq<u8>>, start: Seq<u8>) -> bool {
    &&& forall|i: int|
        0 <= i < rows.len() ==> table.contains_key((#[trigger] rows[i]).0) && table[rows[i].0]
            == rows[i].1 && lex_le(start, rows[i].0)
    &&& forall|i: int, j: int| 0 <= i < j < rows.len() ==> lex_lt(rows[i].0, rows[j].0)
    &&& forall|key: Seq<u8>| #[trigger]
        table.contains_key(key) && lex_le(start, key) ==> has_key(rows, key)
}

/// `rows` are the rows of `table` whose key starts with `prefix`, in
/// ascending order of their keys.
pub open spec fn is_prefix_scan(rows: Seq<Pair>, table: Map<Seq<u8>, Seq<u8>>, prefix: Seq<u8>) -> bool {
    &&& forall|i: int|
        0 <= i < rows.len() ==> table.contains_key((#[trigger] rows[i]).0) && table[rows[i].0]
            == rows[i].1 && has_prefix(rows[i].0, prefix)
    &&& forall|i: int, j: int| 0 <= i < j < rows.len() ==> lex_lt(rows[i].0, rows[j].0)
    &&& forall|key: Seq<u8>| #[trigger]
        table.contains_key(key) && has_prefix(key, prefix) ==> has_key(rows, key)
}

/// `Database::begin_read` of `redb`: a read transaction, or the error.
/// Nothing is claimed of what it sees.
#[verifier::external_body]
pub(crate) fn begin_read(db: &redb::Database) -> Result<redb::ReadTransaction, redb::Error> {
    match redb::ReadableDatabase::begin_read(db) {
        Ok(txn) => Ok(txn),
        Err(error) => Err(error.into()),
    }
}

/// `Database::begin_write` of `redb`: a write transaction, or the error. It
/// waits while another write transaction is open; the library opens one at
/// a time and ends it before the next.
#[verifier::external_body]
pub(crate) fn begin_write(db: &redb::Database) -> Result<redb::WriteTransaction, redb::Error> {
    match db.begin_write() {
        Ok(txn) => Ok(txn),
        Err(error) => Err(error.into()),
    }
}

/// Each of the eight tables has a name, which `redb` asks for.
pub proof fn lemma_tables_are_named()
    ensures
        NODES_TABLE@.len() > 0,
        EDGES_TABLE@.len() > 0,
        NODE_DATA_TABLE@.len() > 0,
        EDGE_DATA_TABLE@.len() > 0,
        NODE_INDEX_TABLE@.len() > 0,
        EDGE_INDEX_TABLE@.len() > 0,
        GEO_INDEX_TABLE@.len() > 0,
        SCHEMA_TABLE@.len() > 0,
{
    reveal_strlit("nodes");
    reveal_strlit("edges");
    reveal_strlit("node_data");
    reveal_strlit("edge_data");
    reveal_strlit("node_index");
    reveal_strlit("edge_index");
    reveal_strlit("geo_index");
    reveal_strlit("schema");
}

/// `ReadTransaction::open_table` of `redb`, for a table from strings to
/// strings: the table as the transaction sees it, or the error. `redb`
/// makes the definition of the table from the name with
/// `TableDefinition::new`, which panics on the empty name; so the name is
/// not empty.
#[verifier::external_body]
pub(crate) fn open_snapshot(txn: &redb::ReadTransaction, name: &'static str) -> Result<
    Snapshot,
    redb::Error,
>
    requires
        name@.len() > 0,
{
    match txn.open_table(redb::TableDefinition::new(name)) {
        Ok(table) => Ok(Snapshot { inner: table }),
        Err(error) => Err(error.into()),
    }
}

/// `WriteTransaction::open_table` of `redb`, for a table from strings to
/// strings: the table, made if there was none, or the error. `redb` makes
/// the definition of the table from the name with `TableDefinition::new`,
/// which panics on the empty name; so the name is not empty.
#[verifier::external_body]
pub(crate) fn open_table<'txn>(txn: &'txn redb::WriteTransaction, name: &'static str) -> Result<
    WriteTable<'txn>,
    redb::Error,
>
    requires
        name@.len() > 0,
{
    match txn.open_table(redb::TableDefinition::new(name)) {
        Ok(table) => Ok(WriteTable { inner: table }),
        Err(error) => Err(error.into()),
    }
}

/// `WriteTransaction::commit` of `redb`: makes the writes of the
/// transaction lasting, or gives the error. Nothing is claimed of it.
#[verifier::external_body]
pub(crate) fn commit(txn: redb::WriteTransaction) -> Result<(), redb::Error> {
    match txn.commit() {
        Ok(()) => Ok(()),
        Err(error) => Err(error.into()),
    }
}

/// `ReadOnlyTable::get` of `redb`: where it succeeds, the value under the
/// key, if the table has one.
#[verifier::external_body]
pub(crate) fn snapshot_get(table: &Snapshot, key: &str) -> (r: Result<Option<String>, redb::Error>)
    ensures
        r matches Ok(found) ==> match found {
            Some(value) => snapshot_rows(table).contains_key(utf8(key@)) && snapshot_rows(
                table,
            )[utf8(key@)] == utf8(value@),
            None => !snapshot_rows(table).contains_key(utf8(key@)),
        },
{
    match table.inner.get(key) {
        Ok(Some(guard)) => Ok(Some(guard.value().to_string())),
        Ok(None) => Ok(None),
        Err(error) => Err(error.into()),
    }
}

/// `ReadOnlyTable::range` of `redb` with a lower bound: where it succeeds, a
/// cursor over the rows from `start` on, in ascending order of their keys.
#[verifier::external_body]
pub(crate) fn snapshot_range(table: &Snapshot, start: &str) -> (r: Result<Cursor, redb::Error>)
    ensures
        r matches Ok(cursor) ==> is_scan_from(
            cursor_rest(&cursor),
            snapshot_rows(table),
            utf8(start@),
        ),
{
    match table.inner.range(start..) {
        Ok(range) => Ok(Cursor { inner: range }),
        Err(error) => Err(error.into()),
    }
}

/// `Range::next` of `redb`: the next row and what is left after it, nothing
/// at the end, or an error.
#[verifier::external_body]
pub(crate) fn cursor_next(cursor: &mut Cursor) -> (r: Option<Result<(String, String), redb::Error>>)
    ensures
        match r {
            None => cursor_rest(old(cursor)).len() == 0,
            Some(Ok(row)) => cursor_rest(old(cursor)).len() > 0 && (utf8(row.0@), utf8(row.1@))
                == cursor_rest(old(cursor))[0] && cursor_rest(final(cursor)) == cursor_rest(
                old(cursor),
            ).drop_first(),
            Some(Err(_)) => true,
        },
{
    match cursor.inner.next() {
        None => None,
        Some(Ok((key, value))) => Some(Ok((key.value().to_string(), value.value().to_string()))),
        Some(Err(error)) => Some(Err(error.into())),
    }
}

/// `Table::get` of `redb`: where it succeeds, the value under the key, if
/// the table has one.
#[verifier::external_body]
pub(crate) fn table_get(table: &WriteTable<'_>, key: &str) -> (r: Result<Option<String>, redb::Error>)
    ensures
        r matches Ok(found) ==> match found {
            Some(value) => table_rows(table).contains_key(utf8(key@)) && table_rows(table)[utf8(
                key@,
            )] == utf8(value@),
            None => !table_rows(table).contains_key(utf8(key@)),
        },
{
    match redb::ReadableTable::get(&table.inner, key) {
        Ok(Some(guard)) => Ok(Some(guard.value().to_string())),
        Ok(None) => Ok(None),
        Err(error) => Err(error.into()),
    }
}

/// `Table::insert` of `redb`: where it succeeds, the table holds the value
/// under the key and is otherwise as before.
#[verifier::external_body]
pub(crate) fn table_insert(table: &mut WriteTable<'_>, key: &str, value: &str) -> (r: Result<
    (),
    redb::Error,
>)
    ensures
        r is Ok ==> table_rows(final(table)) == table_rows(old(table)).insert(
            utf8(key@),
            utf8(value@),
        ),
{
    match table.inner.insert(key, value) {
        Ok(_) => Ok(()),
        Err(error) => Err(error.into()),
    }
}

/// `Table::remove` of `redb`: where it succeeds, the table has no row under
/// the key and is otherwise as before.
#[verifier::external_body]
pub(crate) fn table_remove(table: &mut WriteTable<'_>, key: &str) -> (r: Result<(), redb::Error>)
    ensures
        r is Ok ==> table_rows(final(table)) == table_rows(old(table)).remove(utf8(key@)),
{
    match table.inner.remove(key) {
        Ok(_) => Ok(()),
        Err(error) => Err(error.into()),
    }
}

/// The text of a `redb` error, as its `Display` gives it.
#[verifier::external_body]
pub(crate) fn error_text(error: &redb::Error) -> String {
    error.to_string()
}

/// Whether `bytes` starts with `prefix`.
pub fn bytes_start_with(bytes: &[u8], prefix: &[u8]) -> (r: bool)
    ensures
        r == has_prefix(bytes@, prefix@),
{
    if prefix.len() > bytes.len() {
        return false;
    }
    let mut i: usize = 0;
    while i < prefix.len()
        invariant
            0 <= i <= prefix.len(),
            prefix.len() <= bytes.len(),
            forall|j: int| 0 <= j < i ==> bytes@[j] == prefix@[j],
        decreases prefix.len() - i,
    {
        if bytes[i] != prefix[i] {
            assert(bytes@.subrange(0, prefix@.len() as int)[i as int] != prefix@[i as int]);
            return false;
        }
        i += 1;
    }
    assert(bytes@.subrange(0, prefix@.len() as int) =~= prefix@);
    true
}

/// In a scan from a prefix, the rows with the prefix come first: once a key
/// lacks the prefix, so does every later one.
proof fn lemma_scan_prefix_ends(rows: Seq<Pair>, table: Map<Seq<u8>, Seq<u8>>, prefix: Seq<u8>, end: int)
    requires
        is_scan_from(rows, table, prefix),
        0 <= end <= rows.len(),
        forall|j: int| 0 <= j < end ==> has_prefix((#[trigger] rows[j]).0, prefix),
        end < rows.len() ==> !has_prefix(rows[end].0, prefix),
    ensures
        is_prefix_scan(rows.take(end), table, prefix),
{
    let head = rows.take(end);
    assert forall|key: Seq<u8>| #[trigger]
        table.contains_key(key) && has_prefix(key, prefix) implies has_key(head, key) by {
        lemma_prefix_not_after(key, prefix);
        lemma_lex_total(prefix, key);
        assert(has_key(rows, key));
        let m = choose|m: int| 0 <= m < rows.len() && #[trigger] rows[m].0 == key;
        if m >= end {
            if m > end {
                assert(lex_lt(rows[end].0, rows[m].0));
            }
            assert(lex_le(prefix, rows[end].0));
            lemma_prefix_interval(prefix, rows[end].0, key);
        } else {
            assert(head[m].0 == key);
        }
    }
    assert forall|i: int| 0 <= i < head.len() implies table.contains_key((#[trigger] head[i]).0)
        && table[head[i].0] == head[i].1 && has_prefix(head[i].0, prefix) by {
        assert(head[i] == rows[i]);
    }
    assert forall|i: int, j: int| 0 <= i < j < head.len() implies lex_lt(head[i].0, head[j].0) by {
        assert(head[i] == rows[i] && head[j] == rows[j]);
    }
}

/// Two lists in ascending order of their keys that hold the same keys, each
/// with the value that one table has under it, are the same list.
pub proof fn lemma_scans_agree(a: Seq<Pair>, b: Seq<Pair>, table: Map<Seq<u8>, Seq<u8>>)
    requires
        forall|i: int, j: int| 0 <= i < j < a.len() ==> lex_lt(a[i].0, a[j].0),
        forall|i: int, j: int| 0 <= i < j < b.len() ==> lex_lt(b[i].0, b[j].0),
        forall|i: int| 0 <= i < a.len() ==> table[(#[trigger] a[i]).0] == a[i].1,
        forall|i: int| 0 <= i < b.len() ==> table[(#[trigger] b[i]).0] == b[i].1,
        forall|i: int| 0 <= i < a.len() ==> has_key(b, (#[trigger] a[i]).0),
        forall|i: int| 0 <= i < b.len() ==> has_key(a, (#[trigger] b[i]).0),
    ensures
        a == b,
    decreases a.len(),
{
    if a.len() == 0 {
        if b.len() > 0 {
            assert(has_key(a, b[0].0));
            let i = choose|i: int| 0 <= i < a.len() && #[trigger] a[i].0 == b[0].0;
        }
        assert(a =~= b);
    } else {
        assert(has_key(b, a[0].0));
        let j = choose|j: int| 0 <= j < b.len() && #[trigger] b[j].0 == a[0].0;
        assert(has_key(a, b[0].0));
        let i = choose|i: int| 0 <= i < a.len() && #[trigger] a[i].0 == b[0].0;
        if j > 0 {
            assert(lex_lt(b[0].0, b[j].0));
            if i > 0 {
                assert(lex_lt(a[0].0, a[i].0));
                crate::text::lemma_lex_asymmetric(a[0].0, b[0].0);
            } else {
                crate::text::lemma_lex_irreflexive(a[0].0);
            }
        }
        assert(a[0].0 == b[0].0);
        let at = a.drop_first();
        let bt = b.drop_first();
        assert forall|x: int| 0 <= x < at.len() implies has_key(bt, (#[trigger] at[x]).0) by {
            assert(at[x] == a[x + 1]);
            assert(has_key(b, a[x + 1].0));
            let y = choose|y: int| 0 <= y < b.len() && #[trigger] b[y].0 == a[x + 1].0;
            assert(lex_lt(a[0].0, a[x + 1].0));
            if y == 0 {
                crate::text::lemma_lex_irreflexive(a[0].0);
            }
            assert(bt[y - 1].0 == at[x].0);
        }
        assert forall|y: int| 0 <= y < bt.len() implies has_key(at, (#[trigger] bt[y]).0) by {
            assert(bt[y] == b[y + 1]);
            assert(has_key(a, b[y + 1].0));
            let x = choose|x: int| 0 <= x < a.len() && #[trigger] a[x].0 == b[y + 1].0;
            assert(lex_lt(b[0].0, b[y + 1].0));
            if x == 0 {
                crate::text::lemma_lex_irreflexive(b[0].0);
            }
            assert(at[x - 1].0 == bt[y].0);
        }
        assert forall|x: int, y: int| 0 <= x < y < at.len() implies lex_lt(at[x].0, at[y].0) by {
            assert(at[x] == a[x + 1] && at[y] == a[y + 1]);
        }
        assert forall|x: int, y: int| 0 <= x < y < bt.len() implies lex_lt(bt[x].0, bt[y].0) by {
            assert(bt[x] == b[x + 1] && bt[y] == b[y + 1]);
        }
        assert forall|x: int| 0 <= x < at.len() implies table[(#[trigger] at[x]).0] == at[x].1 by {
            assert(at[x] == a[x + 1]);
        }
        assert forall|y: int| 0 <= y < bt.len() implies table[(#[trigger] bt[y]).0] == bt[y].1 by {
            assert(bt[y] == b[y + 1]);
        }
        lemma_scans_agree(at, bt, table);
        assert(a[0] == b[0]);
        assert(a =~= seq![a[0]] + at);
        assert(b =~= seq![b[0]] + bt);
    }
}

/// The rows of `table` whose key starts with `prefix`, in ascending order of
/// their keys.
pub open spec fn prefix_rows(table: Map<Seq<u8>, Seq<u8>>, prefix: Seq<u8>) -> Seq<Pair> {
    choose|rows: Seq<Pair>| is_prefix_scan(rows, table, prefix)
}

/// The table has a list of its rows with the prefix, as every table with
/// finitely many rows has.
pub open spec fn has_scan(table: Map<Seq<u8>, Seq<u8>>, prefix: Seq<u8>) -> bool {
    is_prefix_scan(prefix_rows(table, prefix), table, prefix)
}

/// A table has one list of rows for a prefix.
pub proof fn lemma_prefix_rows_unique(rows: Seq<Pair>, table: Map<Seq<u8>, Seq<u8>>, prefix: Seq<u8>)
    requires
        is_prefix_scan(rows, table, prefix),
    ensures
        rows == prefix_rows(table, prefix),
{
    let other = prefix_rows(table, prefix);
    assert(is_prefix_scan(other, table, prefix));
    assert forall|i: int| 0 <= i < rows.len() implies has_key(other, (#[trigger] rows[i]).0) by {
        assert(table.contains_key(rows[i].0) && has_prefix(rows[i].0, prefix));
    }
    assert forall|i: int| 0 <= i < other.len() implies has_key(rows, (#[trigger] other[i]).0) by {
        assert(table.contains_key(other[i].0) && has_prefix(other[i].0, prefix));
    }
    lemma_scans_agree(rows, other, table);
}

/// The rows at the head of a list whose keys start with `prefix`.
pub open spec fn leading(rows: Seq<Pair>, prefix: Seq<u8>) -> Seq<Pair>
    decreases rows.len(),
{
    if rows.len() == 0 || !has_prefix(rows[0].0, prefix) {
        Seq::empty()
    } else {
        seq![rows[0]] + leading(rows.drop_first(), prefix)
    }
}

proof fn lemma_leading_is_head(rows: Seq<Pair>, prefix: Seq<u8>)
    ensures
        leading(rows, prefix).len() <= rows.len(),
        leading(rows, prefix) == rows.take(leading(rows, prefix).len() as int),
        forall|j: int|
            0 <= j < leading(rows, prefix).len() ==> has_prefix((#[trigger] rows[j]).0, prefix),
        leading(rows, prefix).len() < rows.len() ==> !has_prefix(
            rows[leading(rows, prefix).len() as int].0,
            prefix,
        ),
    decreases rows.len(),
{
    if rows.len() == 0 || !has_prefix(rows[0].0, prefix) {
        assert(rows.take(0) =~= Seq::<Pair>::empty());
    } else {
        let rest = rows.drop_first();
        lemma_leading_is_head(rest, prefix);
        let head = leading(rest, prefix);
        assert(leading(rows, prefix) =~= rows.take(head.len() as int + 1));
        assert forall|j: int| 0 <= j < head.len() + 1 implies has_prefix(
            (#[trigger] rows[j]).0,
            prefix,
        ) by {
            if j > 0 {
                assert(rows[j] == rest[j - 1]);
            }
        }
        if head.len() + 1 < rows.len() {
            assert(rows[head.len() as int + 1] == rest[head.len() as int]);
        }
    }
}

/// A walk over the rows of a snapshot whose key starts with a prefix, in
/// ascending order of their keys. It reads a row when it is asked for one.
pub struct PrefixScan {
    cursor: Cursor,
    prefix: String,
    ended: bool,
}

impl PrefixScan {
    /// The rows that the walk has yet to give.
    pub closed spec fn rest(&self) -> Seq<Pair> {
        if self.ended {
            Seq::empty()
        } else {
            leading(cursor_rest(&self.cursor), utf8(self.prefix@))
        }
    }

    /// Whether the walk has come to its end: it then has no row to give.
    pub closed spec fn is_over(&self) -> bool {
        self.ended
    }

    /// The next row, or nothing at the end of the walk. A walk that has
    /// come to its end reads no more, and so fails no more.
    pub fn next(&mut self) -> (r: Result<Option<(String, String)>, redb::Error>)
        ensures
            match r {
                Ok(Some(row)) => old(self).rest().len() > 0 && (utf8(row.0@), utf8(row.1@)) == old(
                    self,
                ).rest()[0] && final(self).rest() == old(self).rest().drop_first()
                    && !old(self).is_over(),
                Ok(None) => old(self).rest().len() == 0 && final(self).rest().len() == 0
                    && final(self).is_over(),
                Err(_) => !old(self).is_over(),
            },
            old(self).is_over() ==> r matches Ok(None),
    {
        if self.ended {
            return Ok(None);
        }
        let ghost before = cursor_rest(&self.cursor);
        let got = cursor_next(&mut self.cursor);
        match row_of_walk(got, self.prefix.as_str()) {
            Ok(None) => {
                self.ended = true;
                Ok(None)
            },
            Ok(Some(row)) => {
                proof {
                    assert((seq![before[0]] + leading(before.drop_first(), utf8(self.prefix@))).drop_first()
                        =~= leading(before.drop_first(), utf8(self.prefix@)));
                }
                Ok(Some(row))
            },
            Err(error) => Err(error),
        }
    }
}

/// What a walk over the rows under `prefix` gives for what its cursor
/// gave: the row where its key starts with the prefix, the failure where
/// the cursor failed, and nothing where the cursor is at its end or the
/// row lies behind the rows under the prefix.
pub fn row_of_walk(got: Option<Result<(String, String), redb::Error>>, prefix: &str) -> (r: Result<
    Option<(String, String)>,
    redb::Error,
>)
    ensures
        match got {
            None => r matches Ok(None),
            Some(Err(error)) => r matches Err(same) && same == error,
            Some(Ok(row)) => if has_prefix(utf8(row.0@), utf8(prefix@)) {
                r matches Ok(Some(same)) && same == row
            } else {
                r matches Ok(None)
            },
        },
{
    match got {
        None => Ok(None),
        Some(Err(error)) => Err(error),
        Some(Ok(row)) => {
            if bytes_start_with(row.0.as_str().as_bytes(), prefix.as_bytes()) {
                Ok(Some(row))
            } else {
                Ok(None)
            }
        },
    }
}

/// Starts a walk over the rows of a snapshot whose key starts with
/// `prefix`; with the empty prefix, over all rows.
pub fn scan_rows(table: &Snapshot, prefix: &str) -> (r: Result<PrefixScan, redb::Error>)
    ensures
        r matches Ok(scan) ==> scan.rest() == prefix_rows(snapshot_rows(table), utf8(prefix@))
            && has_scan(snapshot_rows(table), utf8(prefix@)) && !scan.is_over(),
{
    let cursor = snapshot_range(table, prefix)?;
    proof {
        let all = cursor_rest(&cursor);
        lemma_leading_is_head(all, utf8(prefix@));
        let end = leading(all, utf8(prefix@)).len() as int;
        lemma_scan_prefix_ends(all, snapshot_rows(table), utf8(prefix@), end);
        lemma_prefix_rows_unique(all.take(end), snapshot_rows(table), utf8(prefix@));
    }
    Ok(PrefixScan { cursor, prefix: prefix.to_owned(), ended: false })
}

/// The bytes of a row.
pub open spec fn row_bytes(row: (String, String)) -> Pair {
    (utf8(row.0@), utf8(row.1@))
}

/// What a loop over a walk knows of the row that it holds: it is the row
/// number `done` of all rows, and the walk has the rows after it to give;
/// or there is no row, and all rows are done.
pub open spec fn row_ahead(
    row: Option<(String, String)>,
    rest: Seq<Pair>,
    all: Seq<Pair>,
    done: int,
) -> bool {
    match row {
        Some(row) => 0 <= done < all.len() && (utf8(row.0@), utf8(row.1@)) == all[done] && rest
            == all.skip(done + 1),
        None => done == all.len(),
    }
}

} // verus!
