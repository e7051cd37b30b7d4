//! Save-to-disk sessions: what a save writes, and the bookkeeping of the
//! contents a session still waits for. Each expected content is downloaded
//! at most once at a time, and never again once it arrived.

use vstd::prelude::*;
use crate::entry::ClipboardEntry;
use crate::paths::{join, join_path, sanitize_root_name, sanitize_root_name_of};
use crate::text::{append_str, owned, str_eq};
use crate::tree::{contains_string, dir_view, lemma_dir_view_index, strings_view, NodeView, TreeNode};

verus! {

// ---------------------------------------------------------------------------
// What a save writes
// ---------------------------------------------------------------------------

pub open spec fn nothing_to_save_message() -> Seq<char> {
    "该记录不包含可另存的文件"@
}

/// What saving an entry asks the user for: whether
/// it is a single file, and the name to suggest. A file map with entries
/// suggests its first root, and is a single file when that is its only
/// entry and a file; an image suggests its list text made safe, as WebP.
pub open spec fn save_target_of(
    file_info: Option<Seq<(Seq<char>, NodeView)>>,
    has_image: bool,
    content: Seq<char>,
) -> Result<(bool, Seq<char>), Seq<char>> {
    match file_info {
        Some(roots) if roots.len() > 0 => Ok(
            (roots.len() == 1 && roots[0].1 is File, roots[0].0),
        ),
        _ => if has_image {
            Ok((true, sanitize_root_name_of(content) + ".webp"@))
        } else {
            Err(nothing_to_save_message())
        },
    }
}

pub open spec fn target_chars(r: Result<(bool, String), String>) -> Result<(bool, Seq<char>), Seq<char>> {
    match r {
        Ok((single, name)) => Ok((single, name@)),
        Err(e) => Err(e@),
    }
}

pub open spec fn opt_roots(o: Option<Vec<(String, TreeNode)>>) -> Option<Seq<(Seq<char>, NodeView)>> {
    match o {
        Some(f) => Some(dir_view(f@)),
        None => None,
    }
}

/// Whether a save of `entry` is a single file, and the name it suggests.
pub fn save_target(entry: &ClipboardEntry) -> (r: Result<(bool, String), String>)
    ensures
        target_chars(r) == save_target_of(opt_roots(entry.file_info), entry.image_info is Some, entry.content@),
{
    if let Some(file_info) = &entry.file_info {
        proof {
            lemma_dir_view_index(file_info@);
        }
        if file_info.len() > 0 {
            let single = file_info.len() == 1 && match &file_info[0].1 {
                TreeNode::File { .. } => true,
                TreeNode::Dir(_) => false,
            };
            return Ok((single, owned(file_info[0].0.as_str())));
        }
    }
    if entry.image_info.is_some() {
        let mut name = sanitize_root_name(entry.content.as_str());
        append_str(&mut name, ".webp");
        Ok((true, name))
    } else {
        Err(owned("该记录不包含可另存的文件"))
    }
}

/// The content a single-file save copies: an image
/// entry without a file map copies its image; otherwise the first root must
/// be a file. The second text names the content in the message a missing
/// copy gives: the image's content id, or the file's name.
pub open spec fn single_file_content_of(
    file_info: Option<Seq<(Seq<char>, NodeView)>>,
    image_id: Option<Seq<char>>,
) -> Result<(Seq<char>, Seq<char>), Seq<char>> {
    match (file_info, image_id) {
        (None, Some(id)) => Ok((id, id)),
        (Some(roots), _) if roots.len() > 0 => match roots[0].1 {
            NodeView::File { f, s } => Ok((f, roots[0].0)),
            NodeView::Dir(_) => Err(nothing_to_save_message()),
        },
        _ => Err(nothing_to_save_message()),
    }
}

pub open spec fn pair_chars(r: Result<(String, String), String>) -> Result<(Seq<char>, Seq<char>), Seq<char>> {
    match r {
        Ok((a, b)) => Ok((a@, b@)),
        Err(e) => Err(e@),
    }
}

/// The content id a single-file save copies, with the name a missing copy
/// is reported under.
pub fn single_file_content(entry: &ClipboardEntry) -> (r: Result<(String, String), String>)
    ensures
        pair_chars(r) == single_file_content_of(
            opt_roots(entry.file_info),
            match entry.image_info {
                Some(i) => Some(i.file_id@),
                None => None,
            },
        ),
{
    match &entry.file_info {
        None => match &entry.image_info {
            Some(image) => Ok((owned(image.file_id.as_str()), owned(image.file_id.as_str()))),
            None => Err(owned("该记录不包含可另存的文件")),
        },
        Some(file_info) => {
            proof {
                lemma_dir_view_index(file_info@);
            }
            if file_info.len() == 0 {
                return Err(owned("该记录不包含可另存的文件"));
            }
            match &file_info[0].1 {
                TreeNode::File { f, .. } => Ok((owned(f.as_str()), owned(file_info[0].0.as_str()))),
                TreeNode::Dir(_) => Err(owned("该记录不包含可另存的文件")),
            }
        },
    }
}

// ---------------------------------------------------------------------------
// Session bookkeeping
// ---------------------------------------------------------------------------

/// A save in progress: where it goes, where contents are staged, and which
/// contents it waits for.
pub struct SaveSession {
    pub entry_id: String,
    pub destination: String,
    pub staging_dir: String,
    pub single_file: bool,
    /// The contents to download, each once, with its size.
    pub expected: Vec<(String, u64)>,
    pub in_progress: Vec<String>,
    pub downloaded: Vec<String>,
}

/// Contents and sizes taken by value.
pub open spec fn sized_view(v: Seq<(String, u64)>) -> Seq<(Seq<char>, u64)> {
    Seq::new(v.len(), |i: int| (v[i].0@, v[i].1))
}

pub open spec fn keys_of(v: Seq<(Seq<char>, u64)>) -> Seq<Seq<char>> {
    Seq::new(v.len(), |i: int| v[i].0)
}

/// The size listed for `k`, from its first listing.
pub open spec fn size_in(v: Seq<(Seq<char>, u64)>, k: Seq<char>) -> Option<u64>
    decreases v.len(),
{
    if v.len() == 0 {
        None
    } else if v[0].0 == k {
        Some(v[0].1)
    } else {
        size_in(v.drop_first(), k)
    }
}

/// The size a list of contents gives `k` when it is collected into a map:
/// the last listing wins.
pub open spec fn collected_size(v: Seq<(Seq<char>, u64)>, k: Seq<char>) -> Option<u64>
    decreases v.len(),
{
    if v.len() == 0 {
        None
    } else {
        let rest = collected_size(v.drop_first(), k);
        if rest is Some {
            rest
        } else if v[0].0 == k {
            Some(v[0].1)
        } else {
            None
        }
    }
}

/// A session taken by value.
pub struct SessionView {
    pub expected: Seq<(Seq<char>, u64)>,
    pub in_progress: Set<Seq<char>>,
    pub downloaded: Set<Seq<char>>,
}

pub open spec fn session_view(s: SaveSession) -> SessionView {
    SessionView {
        expected: sized_view(s.expected@),
        in_progress: strings_view(s.in_progress@).to_set(),
        downloaded: strings_view(s.downloaded@).to_set(),
    }
}

/// Two sessions save the same entry to the same place in the same way.
pub open spec fn same_target(a: SaveSession, b: SaveSession) -> bool {
    &&& a.entry_id@ == b.entry_id@
    &&& a.destination@ == b.destination@
    &&& a.staging_dir@ == b.staging_dir@
    &&& a.single_file == b.single_file
}

/// Each content is listed once in each list.
pub open spec fn session_wf(s: SaveSession) -> bool {
    &&& keys_of(sized_view(s.expected@)).no_duplicates()
    &&& strings_view(s.in_progress@).no_duplicates()
    &&& strings_view(s.downloaded@).no_duplicates()
}

pub open spec fn not_in_session_message() -> Seq<char> {
    "文件不属于当前另存为任务"@
}

pub open spec fn size_mismatch_message() -> Seq<char> {
    "文件大小与另存为任务不一致"@
}

pub open spec fn already_downloading_message() -> Seq<char> {
    "文件正在下载或已经下载"@
}

/// Starting the download of content `f` of `size` into the session:
/// refused when the session does not expect it, expects
/// another size, or has it in flight or downloaded already; otherwise it is
/// in flight.
pub open spec fn begin_of(s: SessionView, f: Seq<char>, size: u64) -> Result<SessionView, Seq<char>> {
    match size_in(s.expected, f) {
        None => Err(not_in_session_message()),
        Some(n) => if n != size {
            Err(size_mismatch_message())
        } else if s.downloaded.contains(f) || s.in_progress.contains(f) {
            Err(already_downloading_message())
        } else {
            Ok(SessionView { in_progress: s.in_progress.insert(f), ..s })
        },
    }
}

/// A finished download of `f`: no longer in flight,
/// downloaded.
pub open spec fn finish_of(s: SessionView, f: Seq<char>) -> SessionView {
    SessionView { in_progress: s.in_progress.remove(f), downloaded: s.downloaded.insert(f), ..s }
}

/// A failed or cancelled download of `f`: no
/// longer in flight.
pub open spec fn abandon_of(s: SessionView, f: Seq<char>) -> SessionView {
    SessionView { in_progress: s.in_progress.remove(f), ..s }
}

/// Nothing in flight and as many contents downloaded as expected.
pub open spec fn complete_of(s: SessionView) -> bool {
    s.in_progress.len() == 0 && s.downloaded.len() == keys_of(s.expected).len()
}

pub open spec fn unit_chars(r: Result<(), String>) -> Result<(), Seq<char>> {
    match r {
        Ok(()) => Ok(()),
        Err(e) => Err(e@),
    }
}

proof fn lemma_size_in_contains(v: Seq<(Seq<char>, u64)>, k: Seq<char>)
    ensures
        size_in(v, k) is Some <==> keys_of(v).contains(k),
        size_in(v, k) matches Some(n) ==> exists|i: int| 0 <= i < v.len() && v[i] == (k, n),
    decreases v.len(),
{
    if v.len() > 0 {
        lemma_size_in_contains(v.drop_first(), k);
        if keys_of(v.drop_first()).contains(k) {
            let i = choose|i: int| 0 <= i < v.drop_first().len() && keys_of(v.drop_first())[i] == k;
            assert(keys_of(v)[i + 1] == k);
        }
        if keys_of(v).contains(k) && v[0].0 != k {
            let i = choose|i: int| 0 <= i < v.len() && keys_of(v)[i] == k;
            assert(keys_of(v.drop_first())[i - 1] == k);
        }
        if v[0].0 != k {
            if let Some(n) = size_in(v.drop_first(), k) {
                let i = choose|i: int| 0 <= i < v.drop_first().len() && v.drop_first()[i] == (k, n);
                assert(v[i + 1] == (k, n));
            }
        }
        assert(keys_of(v)[0] == v[0].0);
    }
}

/// `size_in` of a list whose keys are distinct is the size at the key's
/// index.
proof fn lemma_size_in_at(v: Seq<(Seq<char>, u64)>, i: int)
    requires
        keys_of(v).no_duplicates(),
        0 <= i < v.len(),
    ensures
        size_in(v, v[i].0) == Some(v[i].1),
    decreases v.len(),
{
    if i > 0 {
        assert(keys_of(v)[0] != keys_of(v)[i]);
        assert(keys_of(v.drop_first()) =~= keys_of(v).drop_first());
        lemma_size_in_at(v.drop_first(), i - 1);
    }
}

/// Removes `s` from a list that holds it at most once.
fn remove_string(list: &mut Vec<String>, s: &str)
    requires
        strings_view(old(list)@).no_duplicates(),
    ensures
        strings_view(final(list)@).no_duplicates(),
        strings_view(final(list)@).to_set() == strings_view(old(list)@).to_set().remove(s@),
{
    let ghost before = strings_view(list@);
    let mut i: usize = 0;
    while i < list.len()
        invariant
            i <= list.len(),
            strings_view(list@) == before,
            before == strings_view(old(list)@),
            before.no_duplicates(),
            forall|k: int| 0 <= k < i ==> before[k] != s@,
        decreases list.len() - i,
    {
        if str_eq(list[i].as_str(), s) {
            let ghost at = i as int;
            list.remove(i);
            proof {
                let after = strings_view(list@);
                assert(after =~= before.remove(at));
                assert(before[at] == s@);
                assert forall|a: int, b: int| 0 <= a < after.len() && 0 <= b < after.len() && a != b implies after[a]
                    != after[b] by {
                    let a0 = if a < at { a } else { a + 1 };
                    let b0 = if b < at { b } else { b + 1 };
                    assert(after[a] == before[a0]);
                    assert(after[b] == before[b0]);
                    assert(a0 != b0);
                }
                assert(after.to_set() =~= before.to_set().remove(s@)) by {
                    assert forall|x: Seq<char>| #[trigger] after.contains(x) implies before.to_set().remove(s@).contains(x) by {
                        let k = choose|k: int| 0 <= k < after.len() && after[k] == x;
                        let k0 = if k < at { k } else { k + 1 };
                        assert(before[k0] == x);
                        assert(before.contains(x));
                        assert(k0 != at);
                        assert(before[k0] != before[at]);
                    }
                    assert forall|x: Seq<char>| #[trigger] before.to_set().remove(s@).contains(x) implies after.contains(x) by {
                        let k = choose|k: int| 0 <= k < before.len() && before[k] == x;
                        if k < at {
                            assert(after[k] == x);
                        } else {
                            assert(k != at);
                            assert(after[k - 1] == x);
                        }
                    }
                }
            }
            return;
        }
        i = i + 1;
    }
    proof {
        assert(!before.contains(s@));
        assert(before.to_set().remove(s@) =~= before.to_set());
    }
}

/// Adds `s` to a list that does not hold it.
fn add_string(list: &mut Vec<String>, s: &str)
    requires
        strings_view(old(list)@).no_duplicates(),
        !strings_view(old(list)@).contains(s@),
    ensures
        strings_view(final(list)@).no_duplicates(),
        strings_view(final(list)@).to_set() == strings_view(old(list)@).to_set().insert(s@),
{
    let ghost before = strings_view(list@);
    list.push(owned(s));
    proof {
        let after = strings_view(list@);
        assert(after =~= before.push(s@));
        assert forall|a: int, b: int| 0 <= a < after.len() && 0 <= b < after.len() && a != b implies after[a]
            != after[b] by {
            if a < before.len() && b < before.len() {
                assert(after[a] == before[a] && after[b] == before[b]);
            } else if a < before.len() {
                assert(before.contains(after[a]));
            } else {
                assert(before.contains(after[b]));
            }
        }
        assert(after.to_set() =~= before.to_set().insert(s@)) by {
            assert forall|x: Seq<char>| #[trigger] after.contains(x) implies before.to_set().insert(s@).contains(x) by {
                let k = choose|k: int| 0 <= k < after.len() && after[k] == x;
                if k < before.len() {
                    assert(before[k] == x);
                    assert(before.contains(x));
                }
            }
            assert forall|x: Seq<char>| #[trigger] before.to_set().insert(s@).contains(x) implies after.contains(x) by {
                if x == s@ {
                    assert(after[before.len() as int] == x);
                } else {
                    let k = choose|k: int| 0 <= k < before.len() && before[k] == x;
                    assert(after[k] == x);
                }
            }
        }
    }
}

impl SaveSession {
    /// A session waiting for `missing`, collected as a map from content id
    /// to size: a content listed twice is expected once, with its last
    /// size.
    pub fn new(
        entry_id: String,
        destination: String,
        staging_dir: String,
        single_file: bool,
        missing: &[(String, u64)],
    ) -> (s: SaveSession)
        ensures
            session_wf(s),
            forall|k: Seq<char>| #[trigger] size_in(sized_view(s.expected@), k) == collected_size(sized_view(missing@), k),
            s.in_progress.len() == 0,
            s.downloaded.len() == 0,
            s.entry_id@ == entry_id@,
            s.destination@ == destination@,
            s.staging_dir@ == staging_dir@,
            s.single_file == single_file,
    {
        let ghost mv = sized_view(missing@);
        let mut expected: Vec<(String, u64)> = Vec::new();
        let mut i: usize = missing.len();
        proof {
            assert forall|k: Seq<char>| #[trigger] size_in(sized_view(expected@), k) == collected_size(mv.skip(i as int), k) by {
                assert(mv.skip(i as int).len() == 0);
            }
        }
        while i > 0
            invariant
                i <= missing.len(),
                mv == sized_view(missing@),
                keys_of(sized_view(expected@)).no_duplicates(),
                forall|k: Seq<char>| #[trigger] size_in(sized_view(expected@), k) == collected_size(mv.skip(i as int), k),
            decreases i,
        {
            i = i - 1;
            let ghost before = sized_view(expected@);
            let key = missing[i].0.as_str();
            let mut found = false;
            let mut j: usize = 0;
            while j < expected.len()
                invariant
                    j <= expected.len(),
                    before == sized_view(expected@),
                    !found ==> forall|m: int| 0 <= m < j ==> before[m].0 != key@,
                    found ==> keys_of(before).contains(key@),
                decreases expected.len() - j,
            {
                if str_eq(expected[j].0.as_str(), key) {
                    found = true;
                    assert(keys_of(before)[j as int] == key@);
                }
                j = j + 1;
            }
            proof {
                assert(mv.skip(i as int).drop_first() =~= mv.skip(i + 1));
                assert(mv.skip(i as int)[0] == mv[i as int]);
                assert(mv[i as int].0 == key@);
            }
            if !found {
                expected.push((owned(key), missing[i].1));
                proof {
                    let after = sized_view(expected@);
                    assert(after =~= before.push((key@, missing@[i as int].1)));
                    assert(!keys_of(before).contains(key@)) by {
                        if keys_of(before).contains(key@) {
                            let m = choose|m: int| 0 <= m < keys_of(before).len() && keys_of(before)[m] == key@;
                            assert(before[m].0 == key@);
                        }
                    }
                    assert(keys_of(after) =~= keys_of(before).push(key@));
                    assert forall|a: int, b: int| 0 <= a < keys_of(after).len() && 0 <= b < keys_of(after).len() && a != b implies keys_of(after)[a]
                        != keys_of(after)[b] by {
                        if a < before.len() && b < before.len() {
                            assert(keys_of(after)[a] == keys_of(before)[a]);
                            assert(keys_of(after)[b] == keys_of(before)[b]);
                        } else if a < before.len() {
                            assert(keys_of(before).contains(keys_of(after)[a]));
                        } else {
                            assert(keys_of(before).contains(keys_of(after)[b]));
                        }
                    }
                    assert forall|k: Seq<char>| #[trigger] size_in(after, k) == collected_size(mv.skip(i as int), k) by {
                        lemma_size_in_contains(before, k);
                        lemma_size_in_contains(after, k);
                        if size_in(before, k) is Some {
                            let m = choose|m: int| 0 <= m < before.len() && before[m] == (k, size_in(before, k)->0);
                            lemma_size_in_at(before, m);
                            assert(after[m] == before[m]);
                            lemma_size_in_at(after, m);
                        } else if k == key@ {
                            lemma_size_in_at(after, before.len() as int);
                        } else {
                            if keys_of(after).contains(k) {
                                let m = choose|m: int| 0 <= m < keys_of(after).len() && keys_of(after)[m] == k;
                                assert(m < before.len());
                                assert(keys_of(before)[m] == k);
                            }
                        }
                    }
                }
            } else {
                proof {
                    assert forall|k: Seq<char>| #[trigger] size_in(before, k) == collected_size(mv.skip(i as int), k) by {
                        if k == key@ {
                            lemma_size_in_contains(before, k);
                        }
                    }
                }
            }
        }
        let in_progress: Vec<String> = Vec::new();
        let downloaded: Vec<String> = Vec::new();
        proof {
            assert(mv.skip(0) =~= mv);
            assert(strings_view(in_progress@) =~= Seq::<Seq<char>>::empty());
            assert(strings_view(downloaded@) =~= Seq::<Seq<char>>::empty());
        }
        SaveSession { entry_id, destination, staging_dir, single_file, expected, in_progress, downloaded }
    }

    /// Starts downloading content `file_id` of `size` into this session.
    pub fn begin_file(&mut self, file_id: &str, size: u64) -> (r: Result<(), String>)
        requires
            session_wf(*old(self)),
        ensures
            session_wf(*final(self)),
            match begin_of(session_view(*old(self)), file_id@, size) {
                Ok(v) => r is Ok && session_view(*final(self)) == v,
                Err(e) => unit_chars(r) == Err::<(), Seq<char>>(e) && session_view(*final(self)) == session_view(*old(self)),
            },
            final(self).expected@ == old(self).expected@,
            same_target(*final(self), *old(self)),
    {
        let ghost ev = sized_view(self.expected@);
        let mut found: Option<u64> = None;
        let mut j: usize = 0;
        while j < self.expected.len()
            invariant
                j <= self.expected.len(),
                ev == sized_view(self.expected@),
                keys_of(ev).no_duplicates(),
                match found {
                    None => forall|m: int| 0 <= m < j ==> ev[m].0 != file_id@,
                    Some(n) => size_in(ev, file_id@) == Some(n),
                },
            decreases self.expected.len() - j,
        {
            if found.is_none() && str_eq(self.expected[j].0.as_str(), file_id) {
                proof {
                    lemma_size_in_at(ev, j as int);
                }
                found = Some(self.expected[j].1);
            }
            j = j + 1;
        }
        proof {
            lemma_size_in_contains(ev, file_id@);
            if found is None && keys_of(ev).contains(file_id@) {
                let m = choose|m: int| 0 <= m < keys_of(ev).len() && keys_of(ev)[m] == file_id@;
                assert(ev[m].0 == file_id@);
            }
        }
        match found {
            None => Err(owned("文件不属于当前另存为任务")),
            Some(n) => {
                if n != size {
                    return Err(owned("文件大小与另存为任务不一致"));
                }
                if contains_string(&self.downloaded, file_id) || contains_string(&self.in_progress, file_id) {
                    return Err(owned("文件正在下载或已经下载"));
                }
                add_string(&mut self.in_progress, file_id);
                Ok(())
            },
        }
    }

    /// Records that content `file_id` arrived in the staging directory.
    pub fn finish_file(&mut self, file_id: &str)
        requires
            session_wf(*old(self)),
        ensures
            session_wf(*final(self)),
            session_view(*final(self)) == finish_of(session_view(*old(self)), file_id@),
            final(self).expected@ == old(self).expected@,
            same_target(*final(self), *old(self)),
    {
        remove_string(&mut self.in_progress, file_id);
        if !contains_string(&self.downloaded, file_id) {
            add_string(&mut self.downloaded, file_id);
        } else {
            proof {
                let d = strings_view(self.downloaded@);
                assert(d.to_set().insert(file_id@) =~= d.to_set());
            }
        }
    }

    /// Records that the download of content `file_id` failed or was
    /// cancelled.
    pub fn abandon_file(&mut self, file_id: &str)
        requires
            session_wf(*old(self)),
        ensures
            session_wf(*final(self)),
            session_view(*final(self)) == abandon_of(session_view(*old(self)), file_id@),
            final(self).expected@ == old(self).expected@,
            same_target(*final(self), *old(self)),
    {
        remove_string(&mut self.in_progress, file_id);
    }

    /// Whether every expected content arrived and nothing is in flight
    /// (the first check before a save is finished).
    pub fn check_complete(&self) -> (r: Result<(), String>)
        requires
            session_wf(*self),
        ensures
            r is Ok <==> complete_of(session_view(*self)),
            r matches Err(e) ==> e@ == "另存为所需文件尚未下载完成"@,
    {
        proof {
            strings_view(self.in_progress@).unique_seq_to_set();
            strings_view(self.downloaded@).unique_seq_to_set();
        }
        if self.in_progress.len() != 0 || self.downloaded.len() != self.expected.len() {
            Err(owned("另存为所需文件尚未下载完成"))
        } else {
            Ok(())
        }
    }

    /// Where content `file_id` is staged once it arrived.
    pub fn staged_path(&self, file_id: &str) -> (r: String)
        ensures
            r@ == join_path(self.staging_dir@, file_id@),
    {
        join(self.staging_dir.as_str(), file_id)
    }
}

/// A content in flight cannot start again: the second start is refused.
pub proof fn law_a_content_downloads_once_at_a_time(s: SessionView, f: Seq<char>, size: u64)
    ensures
        begin_of(s, f, size) matches Ok(t) ==> begin_of(t, f, size) == Err::<SessionView, Seq<char>>(
            already_downloading_message(),
        ),
{
}

/// A content that arrived is never downloaded again.
pub proof fn law_arrived_content_is_not_downloaded_again(s: SessionView, f: Seq<char>, size: u64)
    ensures
        begin_of(finish_of(s, f), f, size) is Err,
{
}

/// After a failed or cancelled download the content can start again, as
/// if it had never started.
pub proof fn law_abandoned_content_can_start_again(s: SessionView, f: Seq<char>, size: u64)
    ensures
        begin_of(s, f, size) matches Ok(t) ==> begin_of(abandon_of(t, f), f, size) == Ok::<SessionView, Seq<char>>(t),
{
    if let Ok(t) = begin_of(s, f, size) {
        assert(abandon_of(t, f).in_progress =~= s.in_progress);
        assert(s.in_progress.insert(f) =~= t.in_progress);
    }
}

/// A complete session holds every expected content when only expected
/// contents arrived.
pub proof fn law_complete_session_has_every_content(s: SessionView)
    requires
        keys_of(s.expected).no_duplicates(),
        s.downloaded.finite(),
        s.downloaded.subset_of(keys_of(s.expected).to_set()),
        complete_of(s),
    ensures
        s.downloaded == keys_of(s.expected).to_set(),
{
    keys_of(s.expected).unique_seq_to_set();
    vstd::set_lib::lemma_subset_equality(s.downloaded, keys_of(s.expected).to_set());
}

} // verus!
