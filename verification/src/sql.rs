//! Small SQL text builders: `IN (...)` marks, literal `LIKE` needles and the
//! newest-first ordering clause.

use vstd::prelude::*;
use crate::text::{append_char, append_str, chars_of, decimal, decimal_string, owned};
use crate::tree::{contains_string, strings_view};

verus! {

/// `?`, `?, ?`, `?, ?, ?`, …: `n` marks separated by `, `.
pub open spec fn placeholders_of(n: nat) -> Seq<char>
    decreases n,
{
    if n == 0 {
        Seq::empty()
    } else if n == 1 {
        "?"@
    } else {
        placeholders_of((n - 1) as nat) + ", ?"@
    }
}

/// Comma-separated `?` marks for an `IN` clause.
pub fn placeholders(count: usize) -> (r: String)
    ensures
        r@ == placeholders_of(count as nat),
{
    let mut r = String::new();
    let mut i: usize = 0;
    while i < count
        invariant
            i <= count,
            r@ == placeholders_of(i as nat),
        decreases count - i,
    {
        if i == 0 {
            append_str(&mut r, "?");
        } else {
            append_str(&mut r, ", ?");
        }
        i = i + 1;
    }
    r
}

/// Whether a character is a `LIKE` wildcard or the escape character.
pub open spec fn is_like_special(c: char) -> bool {
    c == '%' || c == '_' || c == '\\'
}

/// Each `%`, `_` and `\` preceded by `\`.
pub open spec fn escape_like_of(s: Seq<char>) -> Seq<char>
    decreases s.len(),
{
    if s.len() == 0 {
        Seq::empty()
    } else if is_like_special(s.last()) {
        escape_like_of(s.drop_last()) + seq!['\\', s.last()]
    } else {
        escape_like_of(s.drop_last()).push(s.last())
    }
}

/// A needle that a `LIKE ? ESCAPE '\'` matches literally.
pub fn escape_like(needle: &str) -> (r: String)
    ensures
        r@ == escape_like_of(needle@),
{
    let cs = chars_of(needle);
    let mut r = String::new();
    let mut i: usize = 0;
    while i < cs.len()
        invariant
            i <= cs.len(),
            cs@ == needle@,
            r@ == escape_like_of(cs@.take(i as int)),
        decreases cs.len() - i,
    {
        let c = cs[i];
        assert(cs@.take(i + 1).drop_last() =~= cs@.take(i as int));
        if c == '%' || c == '_' || c == '\\' {
            append_char(&mut r, '\\');
        }
        append_char(&mut r, c);
        assert(r@ =~= escape_like_of(cs@.take(i + 1)));
        i = i + 1;
    }
    assert(cs@.take(cs.len() as int) =~= cs@);
    r
}

/// The newest-first ordering clause, with an optional page.
pub open spec fn newest_first_sql_of(limit: Option<usize>, offset: usize) -> Seq<char> {
    let order = " ORDER BY created_ms DESC, rowid DESC"@;
    match limit {
        Some(l) => order + " LIMIT "@ + decimal(l as nat) + " OFFSET "@ + decimal(offset as nat),
        None => order,
    }
}

/// Newest-first ordering with the same-millisecond tie-break on `rowid`;
/// the page limit is written as an integer only.
pub fn newest_first_sql(limit: Option<usize>, offset: usize) -> (r: String)
    ensures
        r@ == newest_first_sql_of(limit, offset),
{
    let mut sql = owned(" ORDER BY created_ms DESC, rowid DESC");
    if let Some(l) = limit {
        append_str(&mut sql, " LIMIT ");
        let a = decimal_string(l as u64);
        append_str(&mut sql, a.as_str());
        append_str(&mut sql, " OFFSET ");
        let b = decimal_string(offset as u64);
        append_str(&mut sql, b.as_str());
    }
    sql
}

} // verus!

verus! {

// ---------------------------------------------------------------------------
// Schema
// ---------------------------------------------------------------------------

/// The tables and indexes every history database has.
pub open spec fn base_schema() -> Seq<char> {
    "
        CREATE TABLE IF NOT EXISTS metadata (
            key TEXT PRIMARY KEY,
            value TEXT NOT NULL
        );
        CREATE TABLE IF NOT EXISTS entries (
            id TEXT PRIMARY KEY,
            kind TEXT NOT NULL,
            content TEXT NOT NULL,
            extra TEXT NOT NULL DEFAULT '{}',
            created_at TEXT NOT NULL,
            created_ms INTEGER NOT NULL DEFAULT 0,
            source_device_id TEXT NOT NULL,
            sources TEXT NOT NULL DEFAULT '{}'
        );
        CREATE INDEX IF NOT EXISTS entries_created_ms ON entries(created_ms DESC);
        CREATE INDEX IF NOT EXISTS entries_kind_created_ms ON entries(kind, created_ms DESC);
        CREATE TABLE IF NOT EXISTS files (
            file_id TEXT PRIMARY KEY,
            created_at TEXT NOT NULL,
            stored INTEGER NOT NULL DEFAULT 0
        );
        CREATE TABLE IF NOT EXISTS hash_cache (
            source TEXT NOT NULL,
            size INTEGER NOT NULL,
            modified_at INTEGER NOT NULL,
            hash TEXT NOT NULL,
            PRIMARY KEY (source, size, modified_at)
        );
        "@
}

/// `text` when `present`, nothing otherwise.
pub open spec fn text_if(present: bool, text: Seq<char>) -> Seq<char> {
    if present {
        text
    } else {
        Seq::empty()
    }
}

/// The schema batch a history database runs when it is opened,
/// from the columns its `entries` and `files`
/// tables have: the old indexes go, the removed `pinned` and `source_app`
/// columns are dropped where present, `available` becomes `stored`, the
/// `cached` and `size` columns are dropped, rows that only carried the old
/// local-cache flag are deleted when a `files` table exists, and then the
/// tables are created where missing.
pub open spec fn schema_batch_of(entry_columns: Seq<Seq<char>>, files_columns: Seq<Seq<char>>) -> Seq<char> {
    "DROP INDEX IF EXISTS entries_source_app_created_at;\n"@ + "DROP INDEX IF EXISTS entries_created_at;\n"@
        + "DROP INDEX IF EXISTS entries_kind_created_at;\n"@ + text_if(
        entry_columns.contains("pinned"@),
        "ALTER TABLE entries DROP COLUMN pinned;\n"@,
    ) + text_if(entry_columns.contains("source_app"@), "ALTER TABLE entries DROP COLUMN source_app;\n"@) + text_if(
        files_columns.contains("available"@),
        "ALTER TABLE files RENAME COLUMN available TO stored;\n"@,
    ) + text_if(files_columns.contains("cached"@), "ALTER TABLE files DROP COLUMN cached;\n"@) + text_if(
        files_columns.contains("size"@),
        "ALTER TABLE files DROP COLUMN size;\n"@,
    ) + text_if(files_columns.len() > 0, "DELETE FROM files WHERE stored = 0;\n"@) + base_schema()
}

/// Builds the schema batch for a database whose tables have these columns.
pub fn schema_batch(entry_columns: &Vec<String>, files_columns: &Vec<String>) -> (sql: String)
    ensures
        sql@ == schema_batch_of(strings_view(entry_columns@), strings_view(files_columns@)),
{
    let mut sql = owned("DROP INDEX IF EXISTS entries_source_app_created_at;\n");
    append_str(&mut sql, "DROP INDEX IF EXISTS entries_created_at;\n");
    append_str(&mut sql, "DROP INDEX IF EXISTS entries_kind_created_at;\n");
    let ghost s0 = sql@;
    if contains_string(entry_columns, "pinned") {
        append_str(&mut sql, "ALTER TABLE entries DROP COLUMN pinned;\n");
    }
    let ghost s1 = sql@;
    if contains_string(entry_columns, "source_app") {
        append_str(&mut sql, "ALTER TABLE entries DROP COLUMN source_app;\n");
    }
    let ghost s2 = sql@;
    if contains_string(files_columns, "available") {
        append_str(&mut sql, "ALTER TABLE files RENAME COLUMN available TO stored;\n");
    }
    let ghost s3 = sql@;
    if contains_string(files_columns, "cached") {
        append_str(&mut sql, "ALTER TABLE files DROP COLUMN cached;\n");
    }
    let ghost s4 = sql@;
    if contains_string(files_columns, "size") {
        append_str(&mut sql, "ALTER TABLE files DROP COLUMN size;\n");
    }
    let ghost s5 = sql@;
    if files_columns.len() > 0 {
        append_str(&mut sql, "DELETE FROM files WHERE stored = 0;\n");
    }
    let ghost s6 = sql@;
    append_str(
        &mut sql,
        "
        CREATE TABLE IF NOT EXISTS metadata (
            key TEXT PRIMARY KEY,
            value TEXT NOT NULL
        );
        CREATE TABLE IF NOT EXISTS entries (
            id TEXT PRIMARY KEY,
            kind TEXT NOT NULL,
            content TEXT NOT NULL,
            extra TEXT NOT NULL DEFAULT '{}',
            created_at TEXT NOT NULL,
            created_ms INTEGER NOT NULL DEFAULT 0,
            source_device_id TEXT NOT NULL,
            sources TEXT NOT NULL DEFAULT '{}'
        );
        CREATE INDEX IF NOT EXISTS entries_created_ms ON entries(created_ms DESC);
        CREATE INDEX IF NOT EXISTS entries_kind_created_ms ON entries(kind, created_ms DESC);
        CREATE TABLE IF NOT EXISTS files (
            file_id TEXT PRIMARY KEY,
            created_at TEXT NOT NULL,
            stored INTEGER NOT NULL DEFAULT 0
        );
        CREATE TABLE IF NOT EXISTS hash_cache (
            source TEXT NOT NULL,
            size INTEGER NOT NULL,
            modified_at INTEGER NOT NULL,
            hash TEXT NOT NULL,
            PRIMARY KEY (source, size, modified_at)
        );
        ",
    );
    proof {
        let e = strings_view(entry_columns@);
        let f = strings_view(files_columns@);
        assert(s1 == s0 + text_if(e.contains("pinned"@), "ALTER TABLE entries DROP COLUMN pinned;\n"@));
        assert(s2 == s1 + text_if(e.contains("source_app"@), "ALTER TABLE entries DROP COLUMN source_app;\n"@));
        assert(s3 == s2 + text_if(f.contains("available"@), "ALTER TABLE files RENAME COLUMN available TO stored;\n"@));
        assert(s4 == s3 + text_if(f.contains("cached"@), "ALTER TABLE files DROP COLUMN cached;\n"@));
        assert(s5 == s4 + text_if(f.contains("size"@), "ALTER TABLE files DROP COLUMN size;\n"@));
        assert(s6 == s5 + text_if(f.len() > 0, "DELETE FROM files WHERE stored = 0;\n"@));
        assert(sql@ =~= schema_batch_of(e, f));
    }
    sql
}

/// Whether the upload-queue table predates the payload columns and has to
/// be recreated: it lacks a `content` column.
pub fn queue_table_outdated(columns: &Vec<String>) -> (outdated: bool)
    ensures
        outdated == !strings_view(columns@).contains("content"@),
{
    !contains_string(columns, "content")
}

} // verus!
