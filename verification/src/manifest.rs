//! The history list's filters: keyword, kind and time range, turned into a
//! SQL `WHERE` clause with its parameters, or applied to entries in memory,
//! and cut into pages.

use vstd::prelude::*;
use crate::glob::{to_lowercase, unicode_lowercase};
use crate::sql::{escape_like, escape_like_of, placeholders, placeholders_of};
use crate::text::{append_str, chars_of, contains_chars, contains_seq, owned, string_from_chars, trim, trimmed};

verus! {

/// Entries per page of the history list.
pub const MANIFEST_PAGE_SIZE: usize = 50;

/// Filters of the history list, as the server's manifest takes them. An
/// absent page asks for every match.
#[derive(Clone, Debug)]
pub struct EntriesManifestFilter {
    pub query: String,
    pub kind: String,
    pub start: Option<i64>,
    pub end: Option<i64>,
    pub page: Option<usize>,
}

/// A parameter bound to a `?` mark.
#[derive(Clone, Debug)]
pub enum SqlValue {
    Text(String),
    Integer(i64),
}

/// A parameter taken by value.
pub enum SqlValueView {
    Text(Seq<char>),
    Integer(i64),
}

pub open spec fn sql_value_view(v: SqlValue) -> SqlValueView {
    match v {
        SqlValue::Text(s) => SqlValueView::Text(s@),
        SqlValue::Integer(i) => SqlValueView::Integer(i),
    }
}

pub open spec fn sql_values_view(v: Seq<SqlValue>) -> Seq<SqlValueView> {
    Seq::new(v.len(), |i: int| sql_value_view(v[i]))
}

pub open spec fn devices_view(v: Seq<(String, String)>) -> Seq<(Seq<char>, Seq<char>)> {
    Seq::new(v.len(), |i: int| (v[i].0@, v[i].1@))
}

/// The label of a device without a name.
pub open spec fn unknown_device_label() -> Seq<char> {
    "未知设备"@
}

/// The search needle of a filter: its keyword trimmed and lower-cased.
pub open spec fn manifest_needle_of(query: Seq<char>) -> Seq<char> {
    unicode_lowercase(trim(query))
}

/// The search needle of a filter.
pub fn manifest_needle(filter: &EntriesManifestFilter) -> (needle: String)
    ensures
        needle@ == manifest_needle_of(filter.query@),
{
    let cs = chars_of(filter.query.as_str());
    let t = trimmed(cs.as_slice());
    let s = string_from_chars(t.as_slice());
    to_lowercase(s.as_str())
}

/// The ids of the devices whose lower-cased name contains the needle, in
/// order.
pub open spec fn matching_device_ids(devices: Seq<(Seq<char>, Seq<char>)>, needle: Seq<char>) -> Seq<Seq<char>>
    decreases devices.len(),
{
    if devices.len() == 0 {
        Seq::empty()
    } else if contains_seq(unicode_lowercase(devices.last().1), needle) {
        matching_device_ids(devices.drop_last(), needle).push(devices.last().0)
    } else {
        matching_device_ids(devices.drop_last(), needle)
    }
}

/// Parts joined with a separator.
pub open spec fn join_with(parts: Seq<Seq<char>>, sep: Seq<char>) -> Seq<char>
    decreases parts.len(),
{
    if parts.len() == 0 {
        Seq::empty()
    } else if parts.len() == 1 {
        parts[0]
    } else {
        join_with(parts.drop_last(), sep) + sep + parts.last()
    }
}

pub open spec fn texts(ids: Seq<Seq<char>>) -> Seq<SqlValueView> {
    Seq::new(ids.len(), |i: int| SqlValueView::Text(ids[i]))
}

/// The keyword alternatives: the content matches, or the device's name, or
/// (when the fallback label matches) a device without a known name.
pub open spec fn keyword_clause(devices: Seq<(Seq<char>, Seq<char>)>, needle: Seq<char>) -> (Seq<Seq<char>>, Seq<SqlValueView>) {
    let m = matching_device_ids(devices, needle);
    let unknown = contains_seq(unknown_device_label(), needle);
    let ids = Seq::new(devices.len(), |i: int| devices[i].0);
    if needle.len() == 0 || (unknown && devices.len() == 0) {
        (Seq::empty(), Seq::empty())
    } else {
        let alts = seq!["LOWER(content) LIKE ? ESCAPE '\\'"@] + (if m.len() > 0 {
            seq!["source_device_id IN ("@ + placeholders_of(m.len()) + ")"@]
        } else {
            Seq::empty()
        }) + (if unknown {
            seq!["source_device_id NOT IN ("@ + placeholders_of(devices.len()) + ")"@]
        } else {
            Seq::empty()
        });
        let values = seq![SqlValueView::Text("%"@ + escape_like_of(needle) + "%"@)] + texts(m) + (if unknown {
            texts(ids)
        } else {
            Seq::empty()
        });
        (seq!["("@ + join_with(alts, " OR "@) + ")"@], values)
    }
}

/// The `WHERE` clause and parameters of a filter.
pub open spec fn manifest_query_of(
    kind: Seq<char>,
    start: Option<i64>,
    end: Option<i64>,
    devices: Seq<(Seq<char>, Seq<char>)>,
    needle: Seq<char>,
) -> (Seq<char>, Seq<SqlValueView>) {
    let (c1, v1) = if kind != "all"@ {
        (seq!["kind = ?"@], seq![SqlValueView::Text(kind)])
    } else {
        (Seq::empty(), Seq::empty())
    };
    let (c2, v2) = keyword_clause(devices, needle);
    let (c3, v3) = match start {
        Some(s) => (seq!["created_ms >= ?"@], seq![SqlValueView::Integer(s)]),
        None => (Seq::empty(), Seq::empty()),
    };
    let (c4, v4) = match end {
        Some(e) => (seq!["created_ms <= ?"@], seq![SqlValueView::Integer(e)]),
        None => (Seq::empty(), Seq::empty()),
    };
    let clauses = c1 + c2 + c3 + c4;
    let values = v1 + v2 + v3 + v4;
    (if clauses.len() == 0 { Seq::empty() } else { "WHERE "@ + join_with(clauses, " AND "@) }, values)
}

fn join_strings(parts: &Vec<String>, sep: &str) -> (r: String)
    ensures
        r@ == join_with(Seq::new(parts@.len(), |i: int| parts@[i]@), sep@),
{
    let ghost ps = Seq::new(parts@.len(), |i: int| parts@[i]@);
    let mut r = String::new();
    let mut i: usize = 0;
    while i < parts.len()
        invariant
            i <= parts.len(),
            ps == Seq::new(parts@.len(), |i: int| parts@[i]@),
            r@ == join_with(ps.take(i as int), sep@),
        decreases parts.len() - i,
    {
        assert(ps.take(i + 1).drop_last() =~= ps.take(i as int));
        assert(ps.take(i + 1).last() == parts@[i as int]@);
        if i > 0 {
            append_str(&mut r, sep);
        } else {
            assert(ps.take(0) =~= Seq::<Seq<char>>::empty());
            assert(r@ =~= Seq::<char>::empty());
        }
        append_str(&mut r, parts[i].as_str());
        if i == 0 {
            assert(r@ =~= ps.take(1)[0]);
        }
        i = i + 1;
    }
    assert(ps.take(parts.len() as int) =~= ps);
    r
}

fn push_text(values: &mut Vec<SqlValue>, s: &String)
    ensures
        sql_values_view(final(values)@) == sql_values_view(old(values)@).push(SqlValueView::Text(s@)),
{
    values.push(SqlValue::Text(s.clone()));
    assert(sql_values_view(values@) =~= sql_values_view(old(values)@).push(SqlValueView::Text(s@)));
}

fn push_part(parts: &mut Vec<String>, s: String)
    ensures
        Seq::new(final(parts)@.len(), |i: int| final(parts)@[i]@) == Seq::new(old(parts)@.len(), |i: int| old(parts)@[i]@).push(s@),
{
    parts.push(s);
    assert(Seq::new(parts@.len(), |i: int| parts@[i]@) =~= Seq::new(old(parts)@.len(), |i: int| old(parts)@[i]@).push(s@));
}

pub open spec fn strs(v: Seq<String>) -> Seq<Seq<char>> {
    Seq::new(v.len(), |i: int| v[i]@)
}

fn matching_ids(devices: &Vec<(String, String)>, needle: &str) -> (r: Vec<String>)
    ensures
        strs(r@) == matching_device_ids(devices_view(devices@), needle@),
{
    let ghost dv = devices_view(devices@);
    let needle_chars = chars_of(needle);
    let mut matching: Vec<String> = Vec::new();
    assert(strs(matching@) =~= Seq::<Seq<char>>::empty());
    assert(dv.take(0) =~= Seq::<(Seq<char>, Seq<char>)>::empty());
    let mut k: usize = 0;
    while k < devices.len()
        invariant
            k <= devices.len(),
            dv == devices_view(devices@),
            needle_chars@ == needle@,
            strs(matching@) == matching_device_ids(dv.take(k as int), needle@),
        decreases devices.len() - k,
    {
        assert(dv.take(k + 1).drop_last() =~= dv.take(k as int));
        assert(dv.take(k + 1).last() == dv[k as int]);
        let lowered = to_lowercase(devices[k].1.as_str());
        let lc = chars_of(lowered.as_str());
        if contains_chars(lc.as_slice(), needle_chars.as_slice()) {
            push_part(&mut matching, devices[k].0.clone());
        }
        k = k + 1;
    }
    assert(dv.take(devices.len() as int) =~= dv);
    matching
}

fn text_values(ids: &Vec<String>, values: &mut Vec<SqlValue>)
    ensures
        sql_values_view(final(values)@) == sql_values_view(old(values)@) + texts(strs(ids@)),
{
    let ghost base = sql_values_view(values@);
    let ghost m = strs(ids@);
    let mut j: usize = 0;
    assert(texts(m.take(0)) =~= Seq::<SqlValueView>::empty());
    assert(sql_values_view(values@) =~= base + texts(m.take(0)));
    while j < ids.len()
        invariant
            j <= ids.len(),
            m == strs(ids@),
            sql_values_view(values@) == base + texts(m.take(j as int)),
        decreases ids.len() - j,
    {
        push_text(values, &ids[j]);
        assert(texts(m.take(j + 1)) =~= texts(m.take(j as int)).push(SqlValueView::Text(m[j as int])));
        assert(sql_values_view(values@) =~= base + texts(m.take(j + 1)));
        j = j + 1;
    }
    assert(m.take(ids.len() as int) =~= m);
}

fn keyword_part(devices: &Vec<(String, String)>, needle: &str) -> (r: (Vec<String>, Vec<SqlValue>))
    ensures
        strs(r.0@) == keyword_clause(devices_view(devices@), needle@).0,
        sql_values_view(r.1@) == keyword_clause(devices_view(devices@), needle@).1,
{
    let ghost dv = devices_view(devices@);
    let mut clauses: Vec<String> = Vec::new();
    let mut values: Vec<SqlValue> = Vec::new();
    let needle_chars = chars_of(needle);
    let label = chars_of("未知设备");
    let unknown = contains_chars(label.as_slice(), needle_chars.as_slice());
    if needle_chars.len() == 0 || (unknown && devices.len() == 0) {
        assert(strs(clauses@) =~= Seq::<Seq<char>>::empty());
        assert(sql_values_view(values@) =~= Seq::<SqlValueView>::empty());
        return (clauses, values);
    }
    let matching = matching_ids(devices, needle);
    let ghost m = matching_device_ids(dv, needle@);
    let mut alts: Vec<String> = Vec::new();
    assert(strs(alts@) =~= Seq::<Seq<char>>::empty());
    push_part(&mut alts, owned("LOWER(content) LIKE ? ESCAPE '\\'"));
    let ghost a1 = strs(alts@);
    assert(a1 =~= seq!["LOWER(content) LIKE ? ESCAPE '\\'"@]);
    if matching.len() > 0 {
        let mut alt = owned("source_device_id IN (");
        let marks = placeholders(matching.len());
        append_str(&mut alt, marks.as_str());
        append_str(&mut alt, ")");
        push_part(&mut alts, alt);
    }
    let ghost a2 = strs(alts@);
    assert(a2 =~= a1 + (if m.len() > 0 {
        seq!["source_device_id IN ("@ + placeholders_of(m.len()) + ")"@]
    } else {
        Seq::<Seq<char>>::empty()
    }));
    if unknown {
        let mut alt = owned("source_device_id NOT IN (");
        let marks = placeholders(devices.len());
        append_str(&mut alt, marks.as_str());
        append_str(&mut alt, ")");
        push_part(&mut alts, alt);
    }
    assert(strs(alts@) =~= a2 + (if unknown {
        seq!["source_device_id NOT IN ("@ + placeholders_of(dv.len()) + ")"@]
    } else {
        Seq::<Seq<char>>::empty()
    }));
    let mut pattern = owned("%");
    let escaped = escape_like(needle);
    append_str(&mut pattern, escaped.as_str());
    append_str(&mut pattern, "%");
    assert(sql_values_view(values@) =~= Seq::<SqlValueView>::empty());
    push_text(&mut values, &pattern);
    text_values(&matching, &mut values);
    let ghost v2 = sql_values_view(values@);
    if unknown {
        let mut ids: Vec<String> = Vec::new();
        let mut j: usize = 0;
        assert(strs(ids@) =~= Seq::<Seq<char>>::empty());
        while j < devices.len()
            invariant
                j <= devices.len(),
                dv == devices_view(devices@),
                strs(ids@) == Seq::new(j as nat, |i: int| dv[i].0),
            decreases devices.len() - j,
        {
            push_part(&mut ids, devices[j].0.clone());
            assert(strs(ids@) =~= Seq::new((j + 1) as nat, |i: int| dv[i].0));
            j = j + 1;
        }
        text_values(&ids, &mut values);
    }
    let joined = join_strings(&alts, " OR ");
    assert(Seq::new(alts@.len(), |i: int| alts@[i]@) == strs(alts@));
    let mut clause = owned("(");
    append_str(&mut clause, joined.as_str());
    append_str(&mut clause, ")");
    push_part(&mut clauses, clause);
    assert(strs(clauses@) =~= keyword_clause(dv, needle@).0);
    assert(sql_values_view(values@) =~= keyword_clause(dv, needle@).1);
    (clauses, values)
}

/// The `WHERE` clause and parameters for the history list's filters.
/// `devices` holds `(device id, device name)` pairs and
/// `needle` the trimmed, lower-cased keyword.
pub fn manifest_query(filter: &EntriesManifestFilter, devices: &Vec<(String, String)>, needle: &str) -> (r: (String, Vec<SqlValue>))
    ensures
        r.0@ == manifest_query_of(filter.kind@, filter.start, filter.end, devices_view(devices@), needle@).0,
        sql_values_view(r.1@) == manifest_query_of(filter.kind@, filter.start, filter.end, devices_view(devices@), needle@).1,
{
    let ghost dv = devices_view(devices@);
    let mut clauses: Vec<String> = Vec::new();
    let mut values: Vec<SqlValue> = Vec::new();
    let all = owned("all");
    proof {
        reveal_strlit("all");
    }
    assert(strs(clauses@) =~= Seq::<Seq<char>>::empty());
    assert(sql_values_view(values@) =~= Seq::<SqlValueView>::empty());
    if filter.kind != all {
        push_part(&mut clauses, owned("kind = ?"));
        push_text(&mut values, &filter.kind);
    }
    let ghost c1 = strs(clauses@);
    let ghost v1 = sql_values_view(values@);
    let (kc, kv) = keyword_part(devices, needle);
    let mut i: usize = 0;
    while i < kc.len()
        invariant
            i <= kc.len(),
            strs(clauses@) == c1 + strs(kc@).take(i as int),
        decreases kc.len() - i,
    {
        push_part(&mut clauses, kc[i].clone());
        assert(strs(clauses@) =~= c1 + strs(kc@).take(i + 1));
        i = i + 1;
    }
    assert(strs(kc@).take(kc.len() as int) =~= strs(kc@));
    let mut kv = kv;
    let ghost kvv = sql_values_view(kv@);
    values.append(&mut kv);
    assert(sql_values_view(values@) =~= v1 + kvv);
    let ghost c2 = strs(clauses@);
    let ghost v2 = sql_values_view(values@);
    if let Some(start) = filter.start {
        push_part(&mut clauses, owned("created_ms >= ?"));
        values.push(SqlValue::Integer(start));
        assert(sql_values_view(values@) =~= v2.push(SqlValueView::Integer(start)));
    }
    let ghost c3 = strs(clauses@);
    let ghost v3 = sql_values_view(values@);
    if let Some(end) = filter.end {
        push_part(&mut clauses, owned("created_ms <= ?"));
        values.push(SqlValue::Integer(end));
        assert(sql_values_view(values@) =~= v3.push(SqlValueView::Integer(end)));
    }
    proof {
        let q = manifest_query_of(filter.kind@, filter.start, filter.end, dv, needle@);
        assert(sql_values_view(values@) =~= q.1);
    }
    let ghost cl = strs(clauses@);
    proof {
        let sc1: Seq<Seq<char>> = if filter.kind@ != "all"@ { seq!["kind = ?"@] } else { Seq::empty() };
        assert(c1 =~= sc1);
        let kc2 = keyword_clause(dv, needle@).0;
        assert(c2 =~= c1 + kc2);
        let sc3: Seq<Seq<char>> = match filter.start {
            Some(_) => seq!["created_ms >= ?"@],
            None => Seq::empty(),
        };
        assert(c3 =~= c2 + sc3);
        let sc4: Seq<Seq<char>> = match filter.end {
            Some(_) => seq!["created_ms <= ?"@],
            None => Seq::empty(),
        };
        assert(cl =~= c3 + sc4);
        assert(cl =~= sc1 + kc2 + sc3 + sc4);
    }
    let where_sql = if clauses.len() == 0 {
        String::new()
    } else {
        let joined = join_strings(&clauses, " AND ");
        assert(Seq::new(clauses@.len(), |i: int| clauses@[i]@) == cl);
        let mut w = owned("WHERE ");
        append_str(&mut w, joined.as_str());
        w
    };
    (where_sql, values)
}

} // verus!

verus! {

/// The milliseconds since the epoch of an RFC 3339 time stamp, `None` when it
/// does not parse.
pub uninterp spec fn rfc3339_millis(text: Seq<char>) -> Option<i64>;

/// `chrono::DateTime::parse_from_rfc3339` and `timestamp_millis`: the
/// contract names the result and says nothing more of it.
#[verifier::external_body]
fn parse_rfc3339_millis(text: &str) -> (r: Option<i64>)
    ensures
        r == rfc3339_millis(text@),
{
    match chrono::DateTime::parse_from_rfc3339(text) {
        Ok(time) => Some(time.timestamp_millis()),
        Err(_) => None,
    }
}

/// The sort key of a parsed time stamp: its milliseconds, or 0 when it did
/// not parse.
pub fn created_ms_or_zero(parsed: Option<i64>) -> (ms: i64)
    ensures
        ms == match parsed {
            Some(m) => m,
            None => 0,
        },
{
    match parsed {
        Some(m) => m,
        None => 0,
    }
}

/// The creation time of an entry in milliseconds,
/// 0 when its time stamp does not parse.
pub fn entry_created_ms(created_at: &str) -> (ms: i64)
    ensures
        ms == match rfc3339_millis(created_at@) {
            Some(m) => m,
            None => 0,
        },
{
    created_ms_or_zero(parse_rfc3339_millis(created_at))
}

/// Whether a parsed creation time lies in the filter's range; with a bound
/// set, a time stamp that did not parse is outside.
pub open spec fn within_time_window_of(created: Option<i64>, start: Option<i64>, end: Option<i64>) -> bool {
    if start is None && end is None {
        true
    } else {
        match created {
            None => false,
            Some(ms) => !(start is Some && ms < start->0) && !(end is Some && ms > end->0),
        }
    }
}

/// Whether a parsed creation time lies in the filter's range.
pub fn within_time_window(created: Option<i64>, start: Option<i64>, end: Option<i64>) -> (b: bool)
    ensures
        b == within_time_window_of(created, start, end),
{
    if start.is_none() && end.is_none() {
        return true;
    }
    match created {
        None => false,
        Some(ms) => {
            let early = match start {
                Some(s) => ms < s,
                None => false,
            };
            let late = match end {
                Some(e) => ms > e,
                None => false,
            };
            !early && !late
        },
    }
}

/// The first name recorded for a device.
pub open spec fn first_name(devices: Seq<(Seq<char>, Seq<char>)>, id: Seq<char>) -> Option<Seq<char>>
    decreases devices.len(),
{
    if devices.len() == 0 {
        None
    } else if devices[0].0 == id {
        Some(devices[0].1)
    } else {
        first_name(devices.drop_first(), id)
    }
}

/// Whether an entry passes the filters in memory.
pub open spec fn manifest_matches_of(
    kind: Seq<char>,
    content: Seq<char>,
    device_id: Seq<char>,
    created_at: Seq<char>,
    filter_kind: Seq<char>,
    start: Option<i64>,
    end: Option<i64>,
    devices: Seq<(Seq<char>, Seq<char>)>,
    needle: Seq<char>,
) -> bool {
    let label = match first_name(devices, device_id) {
        Some(n) => n,
        None => unknown_device_label(),
    };
    &&& (filter_kind == "all"@ || kind == filter_kind)
    &&& (needle.len() == 0 || contains_seq(unicode_lowercase(content), needle) || contains_seq(
        unicode_lowercase(label),
        needle,
    ))
    &&& within_time_window_of(rfc3339_millis(created_at), start, end)
}

fn device_label(devices: &Vec<(String, String)>, id: &String) -> (label: String)
    ensures
        label@ == match first_name(devices_view(devices@), id@) {
            Some(n) => n,
            None => unknown_device_label(),
        },
{
    let ghost dv = devices_view(devices@);
    let mut i: usize = 0;
    assert(dv.skip(0) =~= dv);
    while i < devices.len()
        invariant
            i <= devices.len(),
            dv == devices_view(devices@),
            first_name(dv, id@) == first_name(dv.skip(i as int), id@),
        decreases devices.len() - i,
    {
        let ghost rest = dv.skip(i as int);
        assert(rest[0] == dv[i as int]);
        assert(rest.drop_first() =~= dv.skip(i + 1));
        if devices[i].0 == *id {
            return devices[i].1.clone();
        }
        i = i + 1;
    }
    assert(dv.skip(devices.len() as int) =~= Seq::<(Seq<char>, Seq<char>)>::empty());
    owned("未知设备")
}

/// Whether an entry passes the history list's filters in memory:
/// its kind, a keyword in its content or its device's
/// name (lower-cased), and its creation time within the range.
pub fn manifest_matches(
    entry: &crate::entry::ClipboardEntry,
    filter: &EntriesManifestFilter,
    devices: &Vec<(String, String)>,
    needle: &str,
) -> (b: bool)
    ensures
        b == manifest_matches_of(
            entry.kind@,
            entry.content@,
            entry.source_device_id@,
            entry.created_at@,
            filter.kind@,
            filter.start,
            filter.end,
            devices_view(devices@),
            needle@,
        ),
{
    let all = owned("all");
    proof {
        reveal_strlit("all");
    }
    if filter.kind != all && entry.kind != filter.kind {
        return false;
    }
    if !needle.is_empty() {
        let needle_chars = chars_of(needle);
        let content = to_lowercase(entry.content.as_str());
        let cc = chars_of(content.as_str());
        let label = device_label(devices, &entry.source_device_id);
        let lowered = to_lowercase(label.as_str());
        let lc = chars_of(lowered.as_str());
        let matched = contains_chars(cc.as_slice(), needle_chars.as_slice()) || contains_chars(
            lc.as_slice(),
            needle_chars.as_slice(),
        );
        if !matched {
            return false;
        }
    }
    if filter.start.is_none() && filter.end.is_none() {
        return true;
    }
    within_time_window(parse_rfc3339_millis(entry.created_at.as_str()), filter.start, filter.end)
}

} // verus!

verus! {

/// One page of the history list and how many entries match in all.
#[derive(Debug)]
pub struct EntriesManifestPage {
    pub total: usize,
    pub entries: Vec<crate::entry::ClipboardEntry>,
}

/// The positions of the entries that pass the filters, in order.
pub open spec fn matching_positions(
    entries: Seq<crate::entry::ClipboardEntry>,
    filter_kind: Seq<char>,
    start: Option<i64>,
    end: Option<i64>,
    devices: Seq<(Seq<char>, Seq<char>)>,
    needle: Seq<char>,
) -> Seq<int>
    decreases entries.len(),
{
    if entries.len() == 0 {
        Seq::empty()
    } else {
        let prev = matching_positions(entries.drop_last(), filter_kind, start, end, devices, needle);
        let e = entries.last();
        if manifest_matches_of(e.kind@, e.content@, e.source_device_id@, e.created_at@, filter_kind, start, end, devices, needle) {
            prev.push(entries.len() - 1)
        } else {
            prev
        }
    }
}

/// Where a page starts among the matches: page `p` skips `p - 1` pages.
pub open spec fn page_start(page: Option<usize>) -> nat {
    match page {
        Some(p) => ((if p > 0 { (p - 1) as nat } else { 0nat }) * MANIFEST_PAGE_SIZE) as nat,
        None => 0,
    }
}

/// How many matches a page holds.
pub open spec fn page_len(total: nat, page: Option<usize>) -> nat {
    match page {
        None => total,
        Some(_) => if page_start(page) >= total {
            0
        } else if total - page_start(page) < MANIFEST_PAGE_SIZE {
            (total - page_start(page)) as nat
        } else {
            MANIFEST_PAGE_SIZE as nat
        },
    }
}

/// The page of a query run in the database: at
/// most `MANIFEST_PAGE_SIZE` rows from the page's start, or every row
/// without a page.
pub fn manifest_window(page: Option<usize>) -> (w: (Option<usize>, usize))
    requires
        page_start(page) <= usize::MAX,
    ensures
        page is None ==> w == (None::<usize>, 0usize),
        page is Some ==> w.0 == Some(MANIFEST_PAGE_SIZE) && w.1 == page_start(page),
{
    match page {
        Some(p) => {
            let before: usize = if p > 0 {
                p - 1
            } else {
                0
            };
            (Some(MANIFEST_PAGE_SIZE), before * MANIFEST_PAGE_SIZE)
        },
        None => (None, 0),
    }
}

/// One page of the history list filtered in memory: the
/// number of matches, and the requested page of them as list copies (every
/// match without a page).
pub fn manifest_page(
    entries: &Vec<crate::entry::ClipboardEntry>,
    filter: &EntriesManifestFilter,
    devices: &Vec<(String, String)>,
) -> (page: EntriesManifestPage)
    requires
        page_start(filter.page) <= usize::MAX,
    ensures
        ({
            let needle = manifest_needle_of(filter.query@);
            let positions = matching_positions(entries@, filter.kind@, filter.start, filter.end, devices_view(devices@), needle);
            let first = page_start(filter.page);
            &&& page.total == positions.len()
            &&& page.entries@.len() == page_len(positions.len(), filter.page)
            &&& forall|i: int|
                0 <= i < page.entries@.len() ==> crate::entry::light_of(
                    #[trigger] page.entries@[i],
                    entries@[positions[first + i]],
                )
        }),
{
    let needle = manifest_needle(filter);
    let ghost dv = devices_view(devices@);
    let ghost positions = matching_positions(entries@, filter.kind@, filter.start, filter.end, dv, needle@);
    let mut matched: Vec<usize> = Vec::new();
    let mut i: usize = 0;
    assert(entries@.take(0) =~= Seq::<crate::entry::ClipboardEntry>::empty());
    while i < entries.len()
        invariant
            i <= entries.len(),
            dv == devices_view(devices@),
            matched@.len() == matching_positions(entries@.take(i as int), filter.kind@, filter.start, filter.end, dv, needle@).len(),
            forall|k: int|
                0 <= k < matched@.len() ==> #[trigger] matched@[k] as int == matching_positions(
                    entries@.take(i as int),
                    filter.kind@,
                    filter.start,
                    filter.end,
                    dv,
                    needle@,
                )[k],
            forall|k: int| 0 <= k < matched@.len() ==> #[trigger] matched@[k] < i,
        decreases entries.len() - i,
    {
        assert(entries@.take(i + 1).drop_last() =~= entries@.take(i as int));
        assert(entries@.take(i + 1).last() == entries@[i as int]);
        if manifest_matches(&entries[i], filter, devices, needle.as_str()) {
            matched.push(i);
        }
        i = i + 1;
    }
    assert(entries@.take(entries.len() as int) =~= entries@);
    let total = matched.len();
    let (first, count) = match filter.page {
        None => (0usize, total),
        Some(p) => {
            let skip_pages = if p > 0 {
                p - 1
            } else {
                0
            };
            assert(skip_pages * MANIFEST_PAGE_SIZE <= usize::MAX);
            let first = skip_pages * MANIFEST_PAGE_SIZE;
            let count = if first >= total {
                0
            } else if total - first < MANIFEST_PAGE_SIZE {
                total - first
            } else {
                MANIFEST_PAGE_SIZE
            };
            (first, count)
        },
    };
    assert(first as nat == page_start(filter.page));
    assert(count as nat == page_len(total as nat, filter.page));
    let mut out: Vec<crate::entry::ClipboardEntry> = Vec::new();
    let mut j: usize = 0;
    while j < count
        invariant
            j <= count,
            count == page_len(total as nat, filter.page),
            first as nat == page_start(filter.page),
            count > 0 ==> first + count <= total,
            total == matched@.len(),
            out@.len() == j,
            positions == matching_positions(entries@, filter.kind@, filter.start, filter.end, dv, needle@),
            total == positions.len(),
            forall|k: int| 0 <= k < matched@.len() ==> #[trigger] matched@[k] as int == positions[k],
            forall|k: int| 0 <= k < matched@.len() ==> #[trigger] matched@[k] < entries@.len(),
            forall|k: int| 0 <= k < j ==> crate::entry::light_of(#[trigger] out@[k], entries@[positions[first + k]]),
        decreases count - j,
    {
        let position = matched[first + j];
        let light = crate::entry::lightweight_entry(&entries[position]);
        out.push(light);
        j = j + 1;
    }
    EntriesManifestPage { total, entries: out }
}

} // verus!
