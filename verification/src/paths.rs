//! Where things live on disk, as `/`-separated path strings: the blob cache
//! layout, history profile directories, and the names copied roots get.
//!
//! Joining follows `PathBuf::push`: a relative part is appended after one
//! separator, an absolute part replaces the base.

use vstd::prelude::*;
use vstd::utf8::encode_utf8;
use crate::hashing::{file_id_shape, fnv, fnv1a, is_file_id};
use vstd::relations::injective_on;
use vstd::set_lib::{lemma_int_range, lemma_len_subset, lemma_map_size, set_int_range};
use crate::text::{
    append_char, append_str, chars_of, decimal, decimal_string, hex16, hex_fixed, lemma_decimal_injective,
    owned, result_chars, slice_string, string_from_chars, trim, trimmed,
};
use crate::tree::{contains_string, strings_view};

verus! {

/// `base` joined with `part`.
pub open spec fn join_path(base: Seq<char>, part: Seq<char>) -> Seq<char> {
    if part.len() > 0 && part[0] == '/' {
        part
    } else if base.len() == 0 {
        part
    } else if base.last() == '/' {
        base + part
    } else {
        base + "/"@ + part
    }
}

/// `base` joined with `part` (`Path::join`).
pub fn join(base: &str, part: &str) -> (r: String)
    ensures
        r@ == join_path(base@, part@),
{
    let b = chars_of(base);
    let p = chars_of(part);
    if p.len() > 0 && p[0] == '/' {
        return owned(part);
    }
    if b.len() == 0 {
        return owned(part);
    }
    let mut r = owned(base);
    if b[b.len() - 1] != '/' {
        append_char(&mut r, '/');
        assert(r@ =~= base@ + "/"@) by {
            reveal_strlit("/");
        }
    }
    append_str(&mut r, part);
    r
}

// ---------------------------------------------------------------------------
// Blob cache layout
// ---------------------------------------------------------------------------

/// `<cache>/upload/images/<id>`, where captured images are kept.
pub open spec fn upload_image_path_of(cache_dir: Seq<char>, file_id: Seq<char>) -> Seq<char> {
    join_path(join_path(join_path(cache_dir, "upload"@), "images"@), file_id)
}

/// `<cache>/download/<id>`, where downloaded contents are kept.
pub open spec fn download_path_of(cache_dir: Seq<char>, file_id: Seq<char>) -> Seq<char> {
    join_path(join_path(cache_dir, "download"@), file_id)
}

/// Where a captured image with this content id lives;
/// `None` for an id without the content-id shape.
pub fn upload_image_path(cache_dir: &str, file_id: &str) -> (r: Option<String>)
    ensures
        r is Some <==> file_id_shape(file_id@),
        r is Some ==> r->0@ == upload_image_path_of(cache_dir@, file_id@),
{
    if !is_file_id(file_id) {
        return None;
    }
    let upload = join(cache_dir, "upload");
    let images = join(upload.as_str(), "images");
    Some(join(images.as_str(), file_id))
}

/// Where a downloaded content with this id lives; `None`
/// for an id without the content-id shape.
pub fn download_path(cache_dir: &str, file_id: &str) -> (r: Option<String>)
    ensures
        r is Some <==> file_id_shape(file_id@),
        r is Some ==> r->0@ == download_path_of(cache_dir@, file_id@),
{
    if !is_file_id(file_id) {
        return None;
    }
    let download = join(cache_dir, "download");
    Some(join(download.as_str(), file_id))
}

/// The cached blob for a content id: the upload image
/// path when that file exists, else the download path when that one exists.
/// Whether each candidate exists is read by the caller.
pub fn cached_file_path(cache_dir: &str, file_id: &str, upload_exists: bool, download_exists: bool) -> (r:
    Option<String>)
    ensures
        r is Some <==> file_id_shape(file_id@) && (upload_exists || download_exists),
        r is Some && upload_exists ==> r->0@ == upload_image_path_of(cache_dir@, file_id@),
        r is Some && !upload_exists ==> r->0@ == download_path_of(cache_dir@, file_id@),
{
    if upload_exists {
        if let Some(p) = upload_image_path(cache_dir, file_id) {
            return Some(p);
        }
    }
    if download_exists {
        return download_path(cache_dir, file_id);
    }
    None
}

} // verus!

verus! {

/// Index of the last occurrence of `c` in `p`, or `-1`.
pub open spec fn last_index_of(p: Seq<char>, c: char) -> int
    decreases p.len(),
{
    if p.len() == 0 {
        -1
    } else if p.last() == c {
        p.len() - 1
    } else {
        last_index_of(p.drop_last(), c)
    }
}

pub proof fn lemma_last_index_of(p: Seq<char>, c: char)
    ensures
        -1 <= last_index_of(p, c) < p.len(),
        last_index_of(p, c) >= 0 ==> p[last_index_of(p, c)] == c,
        forall|j: int| last_index_of(p, c) < j < p.len() ==> p[j] != c,
    decreases p.len(),
{
    if p.len() > 0 && p.last() != c {
        lemma_last_index_of(p.drop_last(), c);
        assert forall|j: int| last_index_of(p, c) < j < p.len() implies p[j] != c by {
            if j < p.len() - 1 {
                assert(p.drop_last()[j] == p[j]);
            }
        }
    }
}

/// Position of the last `c` in a character vector, scanning from the end.
fn find_last(cs: &Vec<char>, c: char) -> (r: Option<usize>)
    ensures
        match r {
            Some(k) => k as int == last_index_of(cs@, c) && k < cs@.len() && cs@[k as int] == c,
            None => last_index_of(cs@, c) == -1,
        },
{
    proof {
        lemma_last_index_of(cs@, c);
    }
    let mut i: usize = cs.len();
    while i > 0
        invariant
            i <= cs.len(),
            forall|j: int| i <= j < cs.len() ==> cs@[j] != c,
            -1 <= last_index_of(cs@, c) < cs@.len(),
            last_index_of(cs@, c) >= 0 ==> cs@[last_index_of(cs@, c)] == c,
            forall|j: int| last_index_of(cs@, c) < j < cs@.len() ==> cs@[j] != c,
        decreases i,
    {
        if cs[i - 1] == c {
            return Some(i - 1);
        }
        i = i - 1;
    }
    None
}

// ---------------------------------------------------------------------------
// Path components
// ---------------------------------------------------------------------------
//
// A path is read as `Path::components` reads it: an optional root `/` or a
// leading `.` component, then a body of `/`-separated segments, of which
// empty and `.` segments name no component.

/// Where a path's body starts: after the root `/`, or after a leading `.`
/// component of a relative path; else at the start.
pub open spec fn body_start(p: Seq<char>) -> int {
    if p.len() > 0 && p[0] == '/' {
        1
    } else if p.len() > 0 && p[0] == '.' && (p.len() == 1 || p[1] == '/') {
        1
    } else {
        0
    }
}

/// One step back through the body `p[lo..len]`: where the text before the
/// last segment ends (its separator left out), and where that segment
/// starts.
pub open spec fn back_step(p: Seq<char>, lo: int, len: int) -> (int, int) {
    let j = last_index_of(p.subrange(lo, len), '/');
    if j >= 0 {
        (lo + j, lo + j + 1)
    } else {
        (lo, lo)
    }
}

/// A segment that names a component: neither empty nor `.`.
pub open spec fn names_component(s: Seq<char>) -> bool {
    s.len() > 0 && s != "."@
}

/// The last component of the body `p[lo..len]`, skipping empty and `.`
/// segments at its end: the end of the text before it, its start and its
/// end; `None` when the body has no component.
pub open spec fn last_component(p: Seq<char>, lo: int, len: int) -> Option<(int, int, int)>
    decreases len - lo,
{
    if len <= lo || lo < 0 || len > p.len() {
        None
    } else {
        proof {
            lemma_last_index_of(p.subrange(lo, len), '/');
        }
        let (before, start) = back_step(p, lo, len);
        if names_component(p.subrange(start, len)) {
            Some((before, start, len))
        } else {
            last_component(p, lo, before)
        }
    }
}

/// The end of `p[..len]` once empty and `.` segments are cut off its body's
/// end.
pub open spec fn trim_back(p: Seq<char>, lo: int, len: int) -> int
    decreases len - lo,
{
    if len <= lo || lo < 0 || len > p.len() {
        len
    } else {
        proof {
            lemma_last_index_of(p.subrange(lo, len), '/');
        }
        let (before, start) = back_step(p, lo, len);
        if names_component(p.subrange(start, len)) {
            len
        } else {
            trim_back(p, lo, before)
        }
    }
}

/// `Path::parent`: the path without its last component, `None` when that
/// component is the root or there is none. A lone leading `.` has the empty
/// path as its parent.
pub open spec fn path_parent(p: Seq<char>) -> Option<Seq<char>> {
    let lo = body_start(p);
    match last_component(p, lo, p.len() as int) {
        Some((before, _, _)) => Some(p.take(trim_back(p, lo, before))),
        None => if lo == 1 && p[0] == '.' {
            Some(Seq::empty())
        } else {
            None
        },
    }
}

/// The last occurrence is found where `c` stands with no other `c` after it.
proof fn lemma_last_index_of_at(s: Seq<char>, c: char, k: int)
    requires
        -1 <= k < s.len(),
        k >= 0 ==> s[k] == c,
        forall|j: int| k < j < s.len() ==> s[j] != c,
    ensures
        last_index_of(s, c) == k,
{
    lemma_last_index_of(s, c);
    let r = last_index_of(s, c);
    if r > k {
        assert(s[r] == c);
    }
    if r < k {
        assert(s[k] == c);
    }
}

fn body_start_exec(p: &Vec<char>) -> (r: usize)
    ensures
        r as int == body_start(p@),
{
    if p.len() > 0 && p[0] == '/' {
        1
    } else if p.len() > 0 && p[0] == '.' && (p.len() == 1 || p[1] == '/') {
        1
    } else {
        0
    }
}

fn back_step_exec(p: &Vec<char>, lo: usize, len: usize) -> (r: (usize, usize))
    requires
        lo < len <= p.len(),
    ensures
        (r.0 as int, r.1 as int) == back_step(p@, lo as int, len as int),
        lo <= r.0 < len,
        r.1 <= len,
        r.1 == r.0 || r.1 == r.0 + 1,
{
    let mut i: usize = len;
    while i > lo
        invariant
            lo <= i <= len <= p.len(),
            forall|j: int| i <= j < len ==> p@[j] != '/',
        decreases i,
    {
        if p[i - 1] == '/' {
            proof {
                lemma_last_index_of_at(p@.subrange(lo as int, len as int), '/', (i - 1 - lo) as int);
            }
            return (i - 1, i);
        }
        i = i - 1;
    }
    proof {
        lemma_last_index_of_at(p@.subrange(lo as int, len as int), '/', -1);
    }
    (lo, lo)
}

fn names_component_exec(p: &Vec<char>, start: usize, end: usize) -> (b: bool)
    requires
        start <= end <= p.len(),
    ensures
        b == names_component(p@.subrange(start as int, end as int)),
{
    proof {
        reveal_strlit(".");
    }
    if end == start {
        return false;
    }
    if end - start == 1 && p[start] == '.' {
        assert(p@.subrange(start as int, end as int) =~= "."@);
        return false;
    }
    let ghost sub = p@.subrange(start as int, end as int);
    if end - start == 1 {
        assert(sub[0] != "."@[0]);
    } else {
        assert(sub.len() != "."@.len());
    }
    assert(sub != "."@);
    true
}

fn last_component_exec(p: &Vec<char>, lo: usize) -> (r: Option<(usize, usize, usize)>)
    requires
        lo <= p.len(),
    ensures
        match r {
            Some((a, b, c)) => last_component(p@, lo as int, p.len() as int) == Some((a as int, b as int, c as int)),
            None => last_component(p@, lo as int, p.len() as int) is None,
        },
        match r {
            Some((a, b, c)) => lo <= a <= b <= c <= p.len(),
            None => true,
        },
{
    let mut len: usize = p.len();
    while len > lo
        invariant
            lo <= len <= p.len(),
            last_component(p@, lo as int, p.len() as int) == last_component(p@, lo as int, len as int),
        decreases len,
    {
        let (before, start) = back_step_exec(p, lo, len);
        if names_component_exec(p, start, len) {
            return Some((before, start, len));
        }
        len = before;
    }
    None
}

fn trim_back_exec(p: &Vec<char>, lo: usize, len: usize) -> (r: usize)
    requires
        lo <= len <= p.len(),
    ensures
        r as int == trim_back(p@, lo as int, len as int),
        r <= len,
{
    let mut n: usize = len;
    while n > lo
        invariant
            lo <= n <= len <= p.len(),
            trim_back(p@, lo as int, len as int) == trim_back(p@, lo as int, n as int),
        decreases n,
    {
        let (before, start) = back_step_exec(p, lo, n);
        if names_component_exec(p, start, n) {
            return n;
        }
        n = before;
    }
    n
}

/// The path of a finished download's staging file (`Path::with_extension`
/// with `part`): the file name's extension replaced by `part`, or `.part`
/// appended after its stem when it has none; the path as it is when its last
/// component is no file name (none, the root, `.` alone or `..`).
pub open spec fn with_part_extension(p: Seq<char>) -> Seq<char> {
    match last_component(p, body_start(p), p.len() as int) {
        Some((_, start, end)) => {
            let name = p.subrange(start, end);
            if name == ".."@ {
                p
            } else {
                let dot = last_index_of(name, '.');
                let stem_end = if dot > 0 {
                    start + dot
                } else {
                    end
                };
                p.take(stem_end) + ".part"@
            }
        },
        None => p,
    }
}

/// Where a cache download is staged until its digest is verified: the
/// final path with the extension `part`.
pub fn partial_download_path(final_path: &str) -> (r: String)
    ensures
        r@ == with_part_extension(final_path@),
{
    proof {
        reveal_strlit("..");
        reveal_strlit(".part");
    }
    let p = chars_of(final_path);
    let lo = body_start_exec(&p);
    match last_component_exec(&p, lo) {
        None => owned(final_path),
        Some((_, start, end)) => {
            let name_s = slice_string(p.as_slice(), start, end);
            let name = chars_of(name_s.as_str());
            assert(name@ == final_path@.subrange(start as int, end as int));
            if name.len() == 2 && name[0] == '.' && name[1] == '.' {
                assert(name@ =~= ".."@);
                return owned(final_path);
            }
            assert(name@ != ".."@ ==> !(name.len() == 2 && name[0] == '.' && name[1] == '.'));
            let stem_end: usize = match find_last(&name, '.') {
                Some(d) => {
                    if d > 0 {
                        start + d
                    } else {
                        end
                    }
                },
                None => end,
            };
            let mut r = slice_string(p.as_slice(), 0, stem_end);
            assert(p@.subrange(0, stem_end as int) =~= final_path@.take(stem_end as int));
            append_str(&mut r, ".part");
            r
        },
    }
}

// ---------------------------------------------------------------------------
// History profiles
// ---------------------------------------------------------------------------

/// The key of the history profile used when no account is signed in.
pub open spec fn local_history_key() -> Seq<char> {
    "local"@
}

/// The history profile used when sync is off.
pub fn default_active_history() -> (key: String)
    ensures
        key@ == local_history_key(),
{
    owned("local")
}

/// The characters a file or directory name may keep as they are.
pub open spec fn is_safe_name_char(c: char) -> bool {
    ('0' <= c <= '9') || ('a' <= c <= 'z') || ('A' <= c <= 'Z') || c == '.' || c == '-' || c == '_'
}

/// Every character outside `[A-Za-z0-9._-]` replaced by `_`.
pub open spec fn safe_chars(s: Seq<char>) -> Seq<char> {
    s.map_values(|c: char| if is_safe_name_char(c) { c } else { '_' })
}

fn safe_chars_exec(s: &[char]) -> (r: Vec<char>)
    ensures
        r@ == safe_chars(s@),
{
    let mut r: Vec<char> = Vec::new();
    let mut i: usize = 0;
    while i < s.len()
        invariant
            i <= s.len(),
            r@ == safe_chars(s@.take(i as int)),
        decreases s.len() - i,
    {
        let c = s[i];
        let keep = ('0' <= c && c <= '9') || ('a' <= c && c <= 'z') || ('A' <= c && c <= 'Z') || c == '.'
            || c == '-' || c == '_';
        if keep {
            r.push(c);
        } else {
            r.push('_');
        }
        assert(safe_chars(s@.take(i + 1)) =~= safe_chars(s@.take(i as int)).push(
            if is_safe_name_char(c) { c } else { '_' },
        ));
        i = i + 1;
    }
    assert(s@.take(s.len() as int) =~= s@);
    r
}

/// A name reduced to the characters every file system accepts.
pub fn safe_file_name(name: &str) -> (r: String)
    ensures
        r@ == safe_chars(name@),
{
    let cs = chars_of(name);
    let safe = safe_chars_exec(cs.as_slice());
    string_from_chars(safe.as_slice())
}

/// The directory-name part of a history key: the `account:` prefix dropped,
/// unsafe characters replaced, `local` when nothing is left.
pub open spec fn safe_history_directory_name_of(key: Seq<char>) -> Seq<char> {
    let prefix = "account:"@;
    let rest = if key.len() >= prefix.len() && key.take(prefix.len() as int) == prefix {
        key.skip(prefix.len() as int)
    } else {
        key
    };
    if rest.len() == 0 {
        "local"@
    } else {
        safe_chars(rest)
    }
}

/// The directory-name part of a history key.
pub fn safe_history_directory_name(key: &str) -> (r: String)
    ensures
        r@ == safe_history_directory_name_of(key@),
{
    let k = chars_of(key);
    let prefix = chars_of("account:");
    let start: usize = if prefix.len() <= k.len() && crate::text::matches_at(k.as_slice(), 0, prefix.as_slice()) {
        prefix.len()
    } else {
        0
    };
    assert(k@.subrange(0, prefix@.len() as int) =~= k@.take(prefix@.len() as int));
    let mut rest: Vec<char> = Vec::new();
    let mut i: usize = start;
    while i < k.len()
        invariant
            start <= i <= k.len(),
            rest@ == k@.subrange(start as int, i as int),
        decreases k.len() - i,
    {
        rest.push(k[i]);
        assert(k@.subrange(start as int, i + 1) =~= k@.subrange(start as int, i as int).push(k@[i as int]));
        i = i + 1;
    }
    assert(rest@ =~= k@.skip(start as int));
    if rest.len() == 0 {
        return owned("local");
    }
    let safe = safe_chars_exec(rest.as_slice());
    string_from_chars(safe.as_slice())
}

/// `<histories>/<safe name>-<fnv1a of the key, 16 hex digits>/history.sqlite`.
pub open spec fn history_path_of(histories_dir: Seq<char>, key: Seq<char>) -> Seq<char> {
    join_path(
        join_path(
            histories_dir,
            safe_history_directory_name_of(key) + "-"@ + hex_fixed(fnv(encode_utf8(key)) as nat, 16),
        ),
        "history.sqlite"@,
    )
}

/// The database file of a history profile.
pub fn history_path_for_key(histories_dir: &str, key: &str) -> (r: String)
    ensures
        r@ == history_path_of(histories_dir@, key@),
{
    let mut name = safe_history_directory_name(key);
    append_str(&mut name, "-");
    let hash = hex16(fnv1a(key.as_bytes()));
    append_str(&mut name, hash.as_str());
    let dir = join(histories_dir, name.as_str());
    join(dir.as_str(), "history.sqlite")
}

/// The blob directory beside a history database: `files` in its parent
/// directory.
pub open spec fn cache_dir_of(history_path: Seq<char>) -> Seq<char> {
    join_path(path_parent(history_path).unwrap(), "files"@)
}

/// A database file named inside a directory has that directory's text, or
/// the empty path, as a parent.
proof fn lemma_history_path_has_parent(dir: Seq<char>)
    ensures
        path_parent(join_path(dir, "history.sqlite"@)) is Some,
{
    reveal_strlit("history.sqlite");
    reveal_strlit("/");
    reveal_strlit(".");
    let name = "history.sqlite"@;
    let p = join_path(dir, name);
    let lo = body_start(p);
    let len = p.len() as int;
    assert(name.len() == 14);
    assert(forall|t: int| 0 <= t < 14 ==> name[t] != '/');
    let k: int = if dir.len() == 0 {
        -1
    } else if dir.last() == '/' {
        dir.len() - 1
    } else {
        dir.len() as int
    };
    if dir.len() == 0 {
        assert(p =~= name);
    } else if dir.last() == '/' {
        assert(p =~= dir + name);
    } else {
        assert(p =~= dir + "/"@ + name);
    }
    assert(p.len() == k + 15);
    assert(forall|t: int| k < t < len ==> p[t] == name[t - k - 1]);
    assert(k >= 0 ==> p[k] == '/');
    assert(lo <= 1);
    let sub = p.subrange(lo, len);
    if k >= lo {
        lemma_last_index_of_at(sub, '/', k - lo);
    } else {
        if k == 0 {
            assert(p[0] == '/');
            assert(lo == 1);
        } else {
            assert(k == -1);
            assert(p[0] == 'h');
            assert(lo == 0);
        }
        assert(lo == k + 1);
        lemma_last_index_of_at(sub, '/', -1);
    }
    let (before, start) = back_step(p, lo, len);
    assert(start == k + 1);
    assert(p.subrange(start, len) =~= name);
    assert(names_component(p.subrange(start, len)));
    assert(last_component(p, lo, len) is Some);
}

/// The blob directory that belongs to a history database: `files` in the
/// database file's parent directory. A path without a parent (none, or the
/// root alone) is not a database file.
pub fn cache_dir_for_path(path: &str) -> (r: String)
    requires
        path_parent(path@) is Some,
    ensures
        r@ == cache_dir_of(path@),
{
    let p = chars_of(path);
    let lo = body_start_exec(&p);
    let parent = match last_component_exec(&p, lo) {
        Some((before, _, _)) => {
            let n = trim_back_exec(&p, lo, before);
            let s = slice_string(p.as_slice(), 0, n);
            assert(p@.subrange(0, n as int) =~= path@.take(n as int));
            s
        },
        None => String::new(),
    };
    assert(parent@ =~= path_parent(path@).unwrap());
    join(parent.as_str(), "files")
}

/// The blob directory of a history profile.
pub fn cache_dir_for(histories_dir: &str, key: &str) -> (r: String)
    ensures
        r@ == cache_dir_of(history_path_of(histories_dir@, key@)),
{
    let path = history_path_for_key(histories_dir, key);
    proof {
        reveal_strlit("history.sqlite");
        let dir = join_path(
            histories_dir@,
            safe_history_directory_name_of(key@) + "-"@ + hex_fixed(fnv(encode_utf8(key@)) as nat, 16),
        );
        lemma_history_path_has_parent(dir);
    }
    cache_dir_for_path(path.as_str())
}

} // verus!

verus! {

// ---------------------------------------------------------------------------
// Relative paths inside a file map
// ---------------------------------------------------------------------------

/// The segments that name something: empty and `.` segments dropped.
pub open spec fn normal_segments(segs: Seq<Seq<char>>) -> Seq<Seq<char>>
    decreases segs.len(),
{
    if segs.len() == 0 {
        Seq::empty()
    } else {
        let rest = normal_segments(segs.drop_last());
        let s = segs.last();
        if s.len() == 0 || s == "."@ {
            rest
        } else {
            rest.push(s)
        }
    }
}

/// A path separator: `/`, and on Windows also `\`.
pub open spec fn is_separator(c: char, windows: bool) -> bool {
    c == '/' || (windows && c == '\\')
}

/// The pieces of a path between separators.
pub open spec fn split_sep(p: Seq<char>, windows: bool) -> Seq<Seq<char>>
    decreases p.len(),
{
    if p.len() == 0 {
        seq![Seq::empty()]
    } else {
        let s = split_sep(p.drop_last(), windows);
        if is_separator(p.last(), windows) {
            s.push(Seq::empty())
        } else {
            s.update(s.len() - 1, s.last().push(p.last()))
        }
    }
}

proof fn lemma_split_sep_nonempty(p: Seq<char>, windows: bool)
    ensures
        split_sep(p, windows).len() >= 1,
    decreases p.len(),
{
    if p.len() > 0 {
        lemma_split_sep_nonempty(p.drop_last(), windows);
    }
}

/// The pieces of a path between separators, as strings.
fn split_at_separators(p: &str, windows: bool) -> (segs: Vec<String>)
    ensures
        strings_view(segs@) == split_sep(p@, windows),
        segs.len() >= 1,
{
    let cs = chars_of(p);
    let mut segs: Vec<String> = Vec::new();
    let mut current: Vec<char> = Vec::new();
    let mut i: usize = 0;
    proof {
        assert(p@.take(0) =~= Seq::<char>::empty());
        assert(strings_view(segs@).push(current@) =~= split_sep(p@.take(0), windows));
    }
    while i < cs.len()
        invariant
            i <= cs.len(),
            cs@ == p@,
            strings_view(segs@).push(current@) == split_sep(p@.take(i as int), windows),
        decreases cs.len() - i,
    {
        let c = cs[i];
        proof {
            assert(p@.take(i + 1).drop_last() =~= p@.take(i as int));
            assert(p@.take(i + 1).last() == c);
        }
        if c == '/' || (windows && c == '\\') {
            let piece = string_from_chars(current.as_slice());
            segs.push(piece);
            current = Vec::new();
            assert(strings_view(segs@).push(current@) =~= split_sep(p@.take(i + 1), windows));
        } else {
            let ghost before = strings_view(segs@).push(current@);
            current.push(c);
            assert(strings_view(segs@).push(current@) =~= before.update(before.len() - 1, before.last().push(c)));
        }
        i = i + 1;
    }
    let piece = string_from_chars(current.as_slice());
    segs.push(piece);
    assert(p@.take(cs.len() as int) =~= p@);
    assert(strings_view(segs@) =~= split_sep(p@, windows));
    segs
}

/// A Windows drive prefix: an ASCII letter and `:` at the start.
pub open spec fn has_drive_prefix(p: Seq<char>) -> bool {
    p.len() >= 2 && (('a' <= p[0] <= 'z') || ('A' <= p[0] <= 'Z')) && p[1] == ':'
}

/// A relative path that leaves its base: rooted at a separator, on Windows
/// carrying a drive prefix, starting at `.`, or stepping up with `..`.
pub open spec fn escapes_base(p: Seq<char>, windows: bool) -> bool {
    let segs = split_sep(p, windows);
    ||| (p.len() > 0 && is_separator(p[0], windows))
    ||| (windows && has_drive_prefix(p))
    ||| segs[0] == "."@
    ||| exists|i: int| 0 <= i < segs.len() && #[trigger] segs[i] == ".."@
}

/// Segments written one after another with `sep` between them.
pub open spec fn joined_with(segs: Seq<Seq<char>>, sep: char) -> Seq<char>
    decreases segs.len(),
{
    if segs.len() == 0 {
        Seq::empty()
    } else if segs.len() == 1 {
        segs[0]
    } else {
        joined_with(segs.drop_last(), sep).push(sep) + segs.last()
    }
}

/// The separator a path is written with: `\` on Windows, else `/`.
pub open spec fn main_separator(windows: bool) -> char {
    if windows {
        '\\'
    } else {
        '/'
    }
}

pub open spec fn illegal_relative_path_message() -> Seq<char> {
    "文件相对路径不合法"@
}

pub open spec fn empty_relative_path_message() -> Seq<char> {
    "文件相对路径为空"@
}

/// A relative path of a file map checked and normalised, or the reason it
/// was refused.
pub open spec fn clipboard_relative_path_of(p: Seq<char>, windows: bool) -> Result<Seq<char>, Seq<char>> {
    let normal = normal_segments(split_sep(p, windows));
    if escapes_base(p, windows) {
        Err(illegal_relative_path_message())
    } else if normal.len() == 0 {
        Err(empty_relative_path_message())
    } else {
        Ok(joined_with(normal, main_separator(windows)))
    }
}

/// A file map's relative path as a path under some base, read by the
/// separator rules of the platform (`windows` for Windows): refused when it
/// is rooted, carries a drive prefix on Windows, starts at `.`, steps up
/// with `..`, or names nothing; else its segments joined by the platform's
/// separator.
pub fn clipboard_relative_path(relative_path: &str, windows: bool) -> (r: Result<String, String>)
    ensures
        result_chars(r) == clipboard_relative_path_of(relative_path@, windows),
{
    let cs = chars_of(relative_path);
    let segs = split_at_separators(relative_path, windows);
    proof {
        lemma_split_sep_nonempty(relative_path@, windows);
        reveal_strlit(".");
        reveal_strlit("..");
    }
    let ghost sv = strings_view(segs@);
    let dot = owned(".");
    let dots = owned("..");
    let first_is_dot = segs[0] == dot;
    assert(first_is_dot == (sv[0] == "."@));
    let rooted = cs.len() > 0 && (cs[0] == '/' || (windows && cs[0] == '\\'));
    let drive = windows && cs.len() >= 2 && (('a' <= cs[0] && cs[0] <= 'z') || ('A' <= cs[0] && cs[0] <= 'Z'))
        && cs[1] == ':';
    let mut bad = rooted || drive || first_is_dot;
    let mut i: usize = 0;
    while i < segs.len()
        invariant
            i <= segs.len(),
            sv == strings_view(segs@),
            sv == split_sep(relative_path@, windows),
            dots@ == ".."@,
            bad == ((relative_path@.len() > 0 && is_separator(relative_path@[0], windows)) || (windows
                && has_drive_prefix(relative_path@)) || sv[0] == "."@ || exists|k: int|
                0 <= k < i && #[trigger] sv[k] == ".."@),
        decreases segs.len() - i,
    {
        if segs[i] == dots {
            assert(sv[i as int] == ".."@);
            bad = true;
        }
        i = i + 1;
    }
    if bad {
        return Err(owned("文件相对路径不合法"));
    }
    let sep: char = if windows {
        '\\'
    } else {
        '/'
    };
    let mut path = String::new();
    let mut any = false;
    let mut j: usize = 0;
    while j < segs.len()
        invariant
            j <= segs.len(),
            sv == strings_view(segs@),
            dot@ == "."@,
            sep == main_separator(windows),
            path@ == joined_with(normal_segments(sv.take(j as int)), sep),
            any == (normal_segments(sv.take(j as int)).len() > 0),
        decreases segs.len() - j,
    {
        assert(sv.take(j + 1).drop_last() =~= sv.take(j as int));
        assert(sv.take(j + 1).last() == segs@[j as int]@);
        let seg = &segs[j];
        let ghost prev = normal_segments(sv.take(j as int));
        if !(seg.as_str().is_empty() || *seg == dot) {
            let ghost next = prev.push(seg@);
            assert(normal_segments(sv.take(j + 1)) == next);
            assert(next.drop_last() =~= prev);
            if any {
                append_char(&mut path, sep);
            }
            append_str(&mut path, seg.as_str());
            proof {
                if prev.len() == 0 {
                    assert(path@ =~= joined_with(next, sep));
                } else {
                    assert(path@ =~= joined_with(prev, sep).push(sep) + seg@);
                }
            }
            any = true;
        } else {
            assert(normal_segments(sv.take(j + 1)) == prev);
        }
        j = j + 1;
    }
    assert(sv.take(segs.len() as int) =~= sv);
    if !any {
        return Err(owned("文件相对路径为空"));
    }
    Ok(path)
}

// ---------------------------------------------------------------------------
// Names of copied roots
// ---------------------------------------------------------------------------

/// A control character (`char::is_control`): U+0000 to U+001F and U+007F to
/// U+009F.
pub open spec fn is_control(c: char) -> bool {
    (c as u32) <= 0x1f || (0x7f <= (c as u32) && (c as u32) <= 0x9f)
}

/// A character some file system refuses in a name.
pub open spec fn is_forbidden_name_char(c: char) -> bool {
    ||| c == '/'
    ||| c == '\\'
    ||| c == ':'
    ||| c == '*'
    ||| c == '?'
    ||| c == '"'
    ||| c == '<'
    ||| c == '>'
    ||| c == '|'
    ||| is_control(c)
}

/// Every refused character replaced by `_`.
pub open spec fn replace_forbidden(s: Seq<char>) -> Seq<char> {
    s.map_values(|c: char| if is_forbidden_name_char(c) { '_' } else { c })
}

/// Trailing dots removed.
pub open spec fn trim_end_dots(s: Seq<char>) -> Seq<char>
    decreases s.len(),
{
    if s.len() > 0 && s.last() == '.' {
        trim_end_dots(s.drop_last())
    } else {
        s
    }
}

/// A root name as a path component: refused characters replaced by `_`,
/// white space trimmed, trailing dots dropped, and `file` when nothing is
/// left.
pub open spec fn sanitize_root_name_of(name: Seq<char>) -> Seq<char> {
    let cleaned = trim_end_dots(trim(replace_forbidden(name)));
    if cleaned.len() == 0 {
        "file"@
    } else {
        cleaned
    }
}

fn forbidden_name_char(c: char) -> (b: bool)
    ensures
        b == is_forbidden_name_char(c),
{
    c == '/' || c == '\\' || c == ':' || c == '*' || c == '?' || c == '"' || c == '<' || c == '>' || c == '|'
        || (c as u32) <= 0x1f || ((c as u32) >= 0x7f && (c as u32) <= 0x9f)
}

/// A root name made safe to use as a path component when the tree is
/// rebuilt.
pub fn sanitize_root_name(name: &str) -> (r: String)
    ensures
        r@ == sanitize_root_name_of(name@),
{
    let cs = chars_of(name);
    let mut replaced: Vec<char> = Vec::new();
    let mut i: usize = 0;
    while i < cs.len()
        invariant
            i <= cs.len(),
            cs@ == name@,
            replaced@ == replace_forbidden(name@).take(i as int),
        decreases cs.len() - i,
    {
        let c = cs[i];
        let d = if forbidden_name_char(c) {
            '_'
        } else {
            c
        };
        replaced.push(d);
        assert(replaced@ =~= replace_forbidden(name@).take(i + 1));
        i = i + 1;
    }
    assert(replaced@ =~= replace_forbidden(name@));
    let t = trimmed(replaced.as_slice());
    let mut n: usize = t.len();
    assert(t@.take(n as int) =~= t@);
    while n > 0 && t[n - 1] == '.'
        invariant
            n <= t.len(),
            trim_end_dots(t@) == trim_end_dots(t@.take(n as int)),
        decreases n,
    {
        assert(t@.take(n as int).drop_last() =~= t@.take(n - 1));
        n = n - 1;
    }
    assert(trim_end_dots(t@.take(n as int)) == t@.take(n as int));
    proof {
        reveal_strlit("file");
    }
    if n == 0 {
        return owned("file");
    }
    let r = slice_string(t.as_slice(), 0, n);
    assert(r@ =~= t@.take(n as int));
    r
}

/// `<stem> (<n>)<extension>`, where the extension starts at the last `.`
/// that is not the first character.
pub open spec fn numbered_name(base: Seq<char>, n: nat) -> Seq<char> {
    let k = last_index_of(base, '.');
    let stem = if k > 0 { base.take(k) } else { base };
    let ext = if k > 0 { base.skip(k) } else { Seq::empty() };
    stem + " ("@ + decimal(n) + ")"@ + ext
}

proof fn lemma_numbered_name_injective(base: Seq<char>, a: nat, b: nat)
    requires
        numbered_name(base, a) == numbered_name(base, b),
    ensures
        a == b,
{
    let k = last_index_of(base, '.');
    let stem = if k > 0 { base.take(k) } else { base };
    let ext = if k > 0 { base.skip(k) } else { Seq::<char>::empty() };
    let open = " ("@;
    let close = ")"@;
    let x = numbered_name(base, a);
    let y = numbered_name(base, b);
    assert(x =~= stem + open + decimal(a) + close + ext);
    assert(y =~= stem + open + decimal(b) + close + ext);
    assert(decimal(a).len() == decimal(b).len());
    let lo: int = (stem.len() + open.len()) as int;
    assert(x.subrange(lo, lo + decimal(a).len()) =~= decimal(a));
    assert(y.subrange(lo, lo + decimal(b).len()) =~= decimal(b));
    lemma_decimal_injective(a, b);
}

/// Pigeonhole: the names numbered 2 to k + 1 cannot all be among fewer than
/// k used names.
proof fn lemma_numbered_names_fit(used: Seq<Seq<char>>, base: Seq<char>, k: int)
    requires
        k >= 0,
        forall|m: int| 2 <= m < k + 2 ==> used.contains(#[trigger] numbered_name(base, m as nat)),
    ensures
        k <= used.len(),
{
    let f = |m: int| numbered_name(base, m as nat);
    let x = set_int_range(2, k + 2);
    lemma_int_range(2, k + 2);
    assert(injective_on(f, x)) by {
        assert forall|a: int, b: int| x.contains(a) && x.contains(b) && #[trigger] f(a) == #[trigger] f(b) implies a
            == b by {
            lemma_numbered_name_injective(base, a as nat, b as nat);
        }
    }
    let y = x.map(f);
    lemma_map_size(x, y, f);
    assert(y.subset_of(used.to_set())) by {
        assert forall|s: Seq<char>| y.contains(s) implies used.to_set().contains(s) by {
            let m = choose|m: int| x.contains(m) && f(m) == s;
            assert(used.contains(numbered_name(base, m as nat)));
        }
    }
    used.lemma_cardinality_of_set();
    lemma_len_subset(y, used.to_set());
}

/// `base` cut before its last `.`, unless that `.` is the first character:
/// the stem and the extension (which keeps the `.`).
fn split_extension(base: &str) -> (r: (String, String))
    ensures
        r.0@ == (if last_index_of(base@, '.') > 0 { base@.take(last_index_of(base@, '.')) } else { base@ }),
        r.1@ == (if last_index_of(base@, '.') > 0 { base@.skip(last_index_of(base@, '.')) } else { Seq::<char>::empty() }),
{
    let cs = chars_of(base);
    match find_last(&cs, '.') {
        Some(d) => {
            if d > 0 {
                (slice_string(cs.as_slice(), 0, d), slice_string(cs.as_slice(), d, cs.len()))
            } else {
                (owned(base), String::new())
            }
        },
        None => (owned(base), String::new()),
    }
}

/// The name the `n`-th copy of `base` takes beside a file of that name
/// (counting from 2): `<stem> (<n>)<extension>`.
pub fn numbered_file_name(base: &str, n: u32) -> (r: String)
    ensures
        r@ == numbered_name(base@, n as nat),
{
    let (stem, ext) = split_extension(base);
    let r = numbered(stem.as_str(), ext.as_str(), n);
    assert(r@ =~= numbered_name(base@, n as nat));
    r
}

fn numbered(stem: &str, ext: &str, n: u32) -> (r: String)
    ensures
        r@ == stem@ + " ("@ + decimal(n as nat) + ")"@ + ext@,
{
    let mut r = owned(stem);
    append_str(&mut r, " (");
    let digits = decimal_string(n as u64);
    append_str(&mut r, digits.as_str());
    append_str(&mut r, ")");
    append_str(&mut r, ext);
    r
}

/// A root name no other root of the same copy already uses: `base` itself
/// when free, else the first free of `base (2)`, `base (3)`, …, with the
/// counter placed before the extension. The chosen name is recorded in
/// `used`.
pub fn unique_root_name(base: &str, used: &mut Vec<String>) -> (name: String)
    requires
        old(used)@.len() < 0xffff_fff0,
    ensures
        !strings_view(old(used)@).contains(base@) ==> name@ == base@,
        strings_view(old(used)@).contains(base@) ==> exists|n: nat|
            #![trigger numbered_name(base@, n)]
            n >= 2 && name@ == numbered_name(base@, n) && forall|m: nat|
                2 <= m < n ==> strings_view(old(used)@).contains(#[trigger] numbered_name(base@, m)),
        !strings_view(old(used)@).contains(name@),
        strings_view(final(used)@) == strings_view(old(used)@).push(name@),
{
    let ghost old_names = strings_view(used@);
    if !contains_string(used, base) {
        let name = owned(base);
        used.push(owned(base));
        assert(strings_view(used@) =~= old_names.push(name@));
        return name;
    }
    let ghost k = last_index_of(base@, '.');
    let (stem, ext) = split_extension(base);
    let mut counter: u32 = 2;
    loop
        invariant
            2 <= counter <= old_names.len() + 2,
            old_names.len() < 0xffff_fff0,
            old_names == strings_view(used@),
            stem@ == (if k > 0 { base@.take(k) } else { base@ }),
            ext@ == (if k > 0 { base@.skip(k) } else { Seq::<char>::empty() }),
            k == last_index_of(base@, '.'),
            strings_view(old(used)@) == old_names,
            old_names.contains(base@),
            forall|m: nat| 2 <= m < counter ==> old_names.contains(#[trigger] numbered_name(base@, m)),
        decreases old_names.len() + 2 - counter,
    {
        let candidate = numbered(stem.as_str(), ext.as_str(), counter);
        assert(candidate@ =~= numbered_name(base@, counter as nat));
        if !contains_string(used, candidate.as_str()) {
            used.push(owned(candidate.as_str()));
            assert(strings_view(used@) =~= old_names.push(candidate@));
            return candidate;
        }
        proof {
            assert forall|m: int| 2 <= m < (counter + 1) - 2 + 2 implies old_names.contains(
                #[trigger] numbered_name(base@, m as nat),
            ) by {
                if m < counter {
                    assert(old_names.contains(numbered_name(base@, m as nat)));
                }
            }
            lemma_numbered_names_fit(old_names, base@, (counter - 1) as int);
        }
        counter = counter + 1;
    }
}

} // verus!
