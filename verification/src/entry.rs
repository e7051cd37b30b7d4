//! Clipboard entries and what the UI is told about them: the contents an
//! entry references, the light copy lists render, the summary counts, and
//! the local paths kept when a server copy of an entry comes back.

use vstd::prelude::*;
use crate::text::owned;
use crate::tree::{
    collect_paths, contains_string, contents_of, count_files, describe_roots, describe_roots_of, dir_files,
    dir_leaf_paths, dir_view, leaf_count, pairs_view, root_kind, root_kind_of, strings_view, tree_contents,
    FileInfo, NodeView,
};

verus! {

/// The image an `image` entry carries.
#[derive(Clone, Debug)]
pub struct ImageInfo {
    pub file_id: String,
    pub size: u64,
    /// Base64-encoded WebP thumbnail, so lists never need the full image.
    pub thumbnail: String,
}

/// Where a file-map path came from on this machine. Never sent to the
/// server.
#[derive(Clone, Debug)]
pub struct LocalSource {
    pub path: String,
    pub source: String,
    pub size: u64,
    pub modified_at: Option<u64>,
    pub file_id: Option<String>,
}

/// The local origin of a files entry: the copied roots, in the map's root
/// order, and one record per copied file.
#[derive(Clone, Debug)]
pub struct LocalSources {
    pub roots: Vec<String>,
    pub files: Vec<LocalSource>,
}

/// Aggregates the UI needs without the whole tree.
#[derive(Clone, Debug)]
pub struct EntrySummary {
    /// `"file"`, `"dir"`, `"mixed"`, or empty when unknown.
    pub root_kind: String,
    pub file_count: u64,
    pub hashed_count: u64,
    pub content_count: u64,
    pub total_size: u64,
    pub max_file_size: u64,
    pub uploaded_count: u64,
    pub ready_count: u64,
    pub pending_count: u64,
    pub pending_size: u64,
    /// Size of the smallest content this device could still upload.
    pub uploadable_size: Option<u64>,
    pub preview_path: Option<String>,
}

/// One clipboard history entry.
#[derive(Debug)]
pub struct ClipboardEntry {
    pub id: String,
    pub kind: String,
    pub content: String,
    pub html: Option<String>,
    pub rtf: Option<String>,
    /// Present when `kind` is `"files"`.
    pub file_info: Option<FileInfo>,
    /// Present when `kind` is `"image"`.
    pub image_info: Option<ImageInfo>,
    pub source_device_id: String,
    pub created_at: String,
    pub summary: EntrySummary,
    pub sources: LocalSources,
}

/// What a summary refresh reads beyond the entry: the contents the server
/// pool holds, and those this machine has a blob file for.
#[derive(Clone, Debug)]
pub struct SummaryContext {
    pub stored: Vec<String>,
    pub blobs: Vec<String>,
    pub cache_dir: String,
}

pub open spec fn opt_chars(o: Option<String>) -> Option<Seq<char>> {
    match o {
        Some(s) => Some(s@),
        None => None,
    }
}

pub open spec fn opt_file_info(o: Option<FileInfo>) -> Option<Seq<(Seq<char>, NodeView)>> {
    match o {
        Some(f) => Some(dir_view(f@)),
        None => None,
    }
}

pub open spec fn opt_image(o: Option<ImageInfo>) -> Option<(Seq<char>, u64, Seq<char>)> {
    match o {
        Some(i) => Some((i.file_id@, i.size, i.thumbnail@)),
        None => None,
    }
}

/// A local source taken by value.
pub struct SourceView {
    pub path: Seq<char>,
    pub source: Seq<char>,
    pub size: u64,
    pub modified_at: Option<u64>,
    pub file_id: Option<Seq<char>>,
}

pub open spec fn source_view(s: LocalSource) -> SourceView {
    SourceView { path: s.path@, source: s.source@, size: s.size, modified_at: s.modified_at, file_id: opt_chars(s.file_id) }
}

pub open spec fn sources_view(v: Seq<LocalSource>) -> Seq<SourceView> {
    Seq::new(v.len(), |i: int| source_view(v[i]))
}

/// A summary taken by value.
pub struct SummaryView {
    pub root_kind: Seq<char>,
    pub file_count: nat,
    pub hashed_count: nat,
    pub content_count: nat,
    pub total_size: nat,
    pub max_file_size: nat,
    pub uploaded_count: nat,
    pub ready_count: nat,
    pub pending_count: nat,
    pub pending_size: nat,
    pub uploadable_size: Option<nat>,
    pub preview_path: Option<Seq<char>>,
}

pub open spec fn opt_nat(o: Option<u64>) -> Option<nat> {
    match o {
        Some(v) => Some(v as nat),
        None => None,
    }
}

pub open spec fn summary_view(s: EntrySummary) -> SummaryView {
    SummaryView {
        root_kind: s.root_kind@,
        file_count: s.file_count as nat,
        hashed_count: s.hashed_count as nat,
        content_count: s.content_count as nat,
        total_size: s.total_size as nat,
        max_file_size: s.max_file_size as nat,
        uploaded_count: s.uploaded_count as nat,
        ready_count: s.ready_count as nat,
        pending_count: s.pending_count as nat,
        pending_size: s.pending_size as nat,
        uploadable_size: opt_nat(s.uploadable_size),
        preview_path: opt_chars(s.preview_path),
    }
}

/// Every content an entry references, whichever kind carries it: the map's
/// de-duplicated contents, the image, or nothing.
pub open spec fn entry_contents(file_info: Option<Seq<(Seq<char>, NodeView)>>, image: Option<(Seq<char>, u64, Seq<char>)>) -> Seq<
    (Seq<char>, u64),
> {
    match file_info {
        Some(d) => contents_of(d),
        None => match image {
            Some(im) => seq![(im.0, im.1)],
            None => Seq::empty(),
        },
    }
}

/// Every content an entry references.
pub fn entry_contents_of(entry: &ClipboardEntry) -> (contents: Vec<(String, u64)>)
    ensures
        pairs_view(contents@) == entry_contents(opt_file_info(entry.file_info), opt_image(entry.image_info)),
{
    match &entry.file_info {
        Some(file_info) => tree_contents(file_info),
        None => match &entry.image_info {
            Some(image) => {
                let mut v: Vec<(String, u64)> = Vec::new();
                v.push((image.file_id.clone(), image.size));
                assert(pairs_view(v@) =~= seq![(image.file_id@, image.size)]);
                v
            },
            None => {
                let v: Vec<(String, u64)> = Vec::new();
                assert(pairs_view(v@) =~= Seq::<(Seq<char>, u64)>::empty());
                v
            },
        },
    }
}

// ---------------------------------------------------------------------------
// Summary
// ---------------------------------------------------------------------------

/// The running totals of a summary over a list of contents.
pub struct Tally {
    pub total: nat,
    pub max: nat,
    pub uploaded: nat,
    pub ready: nat,
    pub pending: nat,
    pub pending_size: nat,
    pub uploadable: Option<nat>,
}

/// Totals over `contents`: a content is uploaded when the server pool holds
/// it, ready when this machine can read it (a blob, or a local source with
/// that id), pending otherwise; the uploadable size is the smallest ready
/// content the pool does not hold yet.
pub open spec fn tally(contents: Seq<(Seq<char>, u64)>, stored: Seq<Seq<char>>, ready: spec_fn(Seq<char>) -> bool) -> Tally
    decreases contents.len(),
{
    if contents.len() == 0 {
        Tally { total: 0, max: 0, uploaded: 0, ready: 0, pending: 0, pending_size: 0, uploadable: None }
    } else {
        let t = tally(contents.drop_last(), stored, ready);
        let id = contents.last().0;
        let size = contents.last().1 as nat;
        let is_ready = ready(id);
        let is_stored = stored.contains(id);
        Tally {
            total: t.total + size,
            max: if t.max >= size { t.max } else { size },
            uploaded: t.uploaded + if is_stored { 1nat } else { 0nat },
            ready: t.ready + if is_ready { 1nat } else { 0nat },
            pending: t.pending + if is_ready { 0nat } else { 1nat },
            pending_size: t.pending_size + if is_ready { 0nat } else { size },
            uploadable: if is_ready && !is_stored {
                match t.uploadable {
                    Some(u) => Some(if u <= size { u } else { size }),
                    None => Some(size),
                }
            } else {
                t.uploadable
            },
        }
    }
}

pub open spec fn sizes_sum(contents: Seq<(Seq<char>, u64)>) -> nat
    decreases contents.len(),
{
    if contents.len() == 0 {
        0
    } else {
        sizes_sum(contents.drop_last()) + contents.last().1 as nat
    }
}

/// Whether one of the entry's local sources has content id `id`.
pub open spec fn has_local_id(sources: Seq<SourceView>, id: Seq<char>) -> bool {
    exists|i: int| 0 <= i < sources.len() && #[trigger] sources[i].file_id == Some(id)
}

/// The summary an entry gets in a context, with the preview path of an image
/// entry already resolved by the caller.
pub open spec fn summary_of(
    kind: Seq<char>,
    file_info: Option<Seq<(Seq<char>, NodeView)>>,
    image: Option<(Seq<char>, u64, Seq<char>)>,
    sources: Seq<SourceView>,
    stored: Seq<Seq<char>>,
    blobs: Seq<Seq<char>>,
    preview: Option<Seq<char>>,
) -> SummaryView {
    let contents = entry_contents(file_info, image);
    let t = tally(contents, stored, |id: Seq<char>| blobs.contains(id) || has_local_id(sources, id));
    let (root, files, hashed) = match file_info {
        Some(d) => (root_kind_of(d), leaf_count(d, false), leaf_count(d, true)),
        None => match image {
            Some(_) => ("file"@, 1nat, 1nat),
            None => (Seq::<char>::empty(), 0nat, 0nat),
        },
    };
    SummaryView {
        root_kind: root,
        file_count: files,
        hashed_count: hashed,
        content_count: contents.len(),
        total_size: t.total,
        max_file_size: t.max,
        uploaded_count: t.uploaded,
        ready_count: t.ready,
        pending_count: t.pending,
        pending_size: t.pending_size,
        uploadable_size: t.uploadable,
        preview_path: if kind == "image"@ { preview } else { None },
    }
}

/// What the counters of a summary always satisfy.
pub proof fn lemma_tally_bounds(contents: Seq<(Seq<char>, u64)>, stored: Seq<Seq<char>>, ready: spec_fn(Seq<char>) -> bool)
    ensures
        tally(contents, stored, ready).total == sizes_sum(contents),
        tally(contents, stored, ready).ready + tally(contents, stored, ready).pending == contents.len(),
        tally(contents, stored, ready).uploaded <= contents.len(),
        tally(contents, stored, ready).pending_size <= tally(contents, stored, ready).total,
        tally(contents, stored, ready).max <= tally(contents, stored, ready).total,
        tally(contents, stored, ready).max <= u64::MAX,
        tally(contents, stored, ready).uploadable is Some ==> tally(contents, stored, ready).uploadable->0 <= u64::MAX,
    decreases contents.len(),
{
    if contents.len() > 0 {
        lemma_tally_bounds(contents.drop_last(), stored, ready);
    }
}

/// Every content of an entry is either ready here or pending, the pending
/// bytes are part of the total, and no more contents count as uploaded than
/// the entry has.
pub proof fn law_summary_counts_every_content_once(
    kind: Seq<char>,
    file_info: Option<Seq<(Seq<char>, NodeView)>>,
    image: Option<(Seq<char>, u64, Seq<char>)>,
    sources: Seq<SourceView>,
    stored: Seq<Seq<char>>,
    blobs: Seq<Seq<char>>,
    preview: Option<Seq<char>>,
)
    ensures
        ({
            let s = summary_of(kind, file_info, image, sources, stored, blobs, preview);
            &&& s.ready_count + s.pending_count == s.content_count
            &&& s.uploaded_count <= s.content_count
            &&& s.pending_size <= s.total_size
            &&& s.max_file_size <= s.total_size
        }),
{
    lemma_tally_bounds(
        entry_contents(file_info, image),
        stored,
        |id: Seq<char>| blobs.contains(id) || has_local_id(sources, id),
    );
}

/// The uploadable size over a list of contents is the smallest size among
/// the contents that are ready here and not yet stored on the server, and
/// there is one exactly when such a content exists.
proof fn lemma_uploadable_is_smallest(contents: Seq<(Seq<char>, u64)>, stored: Seq<Seq<char>>, ready: spec_fn(Seq<char>) -> bool)
    ensures
        ({
            let u = tally(contents, stored, ready).uploadable;
            &&& u is None <==> !exists|i: int|
                0 <= i < contents.len() && ready(#[trigger] contents[i].0) && !stored.contains(contents[i].0)
            &&& u is Some ==> exists|i: int|
                0 <= i < contents.len() && ready(#[trigger] contents[i].0) && !stored.contains(contents[i].0)
                    && contents[i].1 as nat == u->0
            &&& u is Some ==> forall|i: int|
                0 <= i < contents.len() && ready(#[trigger] contents[i].0) && !stored.contains(contents[i].0) ==> u->0
                    <= contents[i].1 as nat
        }),
    decreases contents.len(),
{
    if contents.len() > 0 {
        let init = contents.drop_last();
        lemma_uploadable_is_smallest(init, stored, ready);
        let n = contents.len() - 1;
        assert forall|i: int| 0 <= i < n implies #[trigger] contents[i] == init[i] by {}
        let u = tally(contents, stored, ready).uploadable;
        let u0 = tally(init, stored, ready).uploadable;
        if u0 is Some {
            let w = choose|i: int|
                0 <= i < init.len() && ready(#[trigger] init[i].0) && !stored.contains(init[i].0) && init[i].1 as nat
                    == u0->0;
            assert(contents[w] == init[w]);
        }
        if u is Some {
            assert forall|i: int|
                0 <= i < contents.len() && ready(#[trigger] contents[i].0) && !stored.contains(contents[i].0) implies u->0
                <= contents[i].1 as nat by {
                if i < n {
                    assert(contents[i] == init[i]);
                }
            }
        } else {
            assert forall|i: int| 0 <= i < contents.len() implies !(ready(#[trigger] contents[i].0) && !stored.contains(
                contents[i].0,
            )) by {
                if i < n {
                    assert(contents[i] == init[i]);
                }
            }
        }
    }
}

/// The uploadable size of an entry's summary is the size of its smallest
/// content that this machine can read (a blob, or a local source with that
/// id) and that the server does not hold yet; there is none exactly when no
/// content is both ready here and unstored.
pub proof fn law_uploadable_size_is_the_smallest_ready_unstored_content(
    kind: Seq<char>,
    file_info: Option<Seq<(Seq<char>, NodeView)>>,
    image: Option<(Seq<char>, u64, Seq<char>)>,
    sources: Seq<SourceView>,
    stored: Seq<Seq<char>>,
    blobs: Seq<Seq<char>>,
    preview: Option<Seq<char>>,
)
    ensures
        ({
            let s = summary_of(kind, file_info, image, sources, stored, blobs, preview);
            let cs = entry_contents(file_info, image);
            &&& s.uploadable_size is None <==> !exists|i: int|
                0 <= i < cs.len() && (blobs.contains(#[trigger] cs[i].0) || has_local_id(sources, cs[i].0))
                    && !stored.contains(cs[i].0)
            &&& s.uploadable_size is Some ==> exists|i: int|
                0 <= i < cs.len() && (blobs.contains(#[trigger] cs[i].0) || has_local_id(sources, cs[i].0))
                    && !stored.contains(cs[i].0) && cs[i].1 as nat == s.uploadable_size->0
            &&& s.uploadable_size is Some ==> forall|i: int|
                0 <= i < cs.len() && (blobs.contains(#[trigger] cs[i].0) || has_local_id(sources, cs[i].0))
                    && !stored.contains(cs[i].0) ==> s.uploadable_size->0 <= cs[i].1 as nat
        }),
{
    let ready = |id: Seq<char>| blobs.contains(id) || has_local_id(sources, id);
    let cs = entry_contents(file_info, image);
    lemma_uploadable_is_smallest(cs, stored, ready);
    let s = summary_of(kind, file_info, image, sources, stored, blobs, preview);
    assert(s.uploadable_size == tally(cs, stored, ready).uploadable);
    assert forall|i: int| 0 <= i < cs.len() implies #[trigger] ready(cs[i].0) == (blobs.contains(cs[i].0)
        || has_local_id(sources, cs[i].0)) by {}
}

fn has_local_source(sources: &Vec<LocalSource>, id: &String) -> (b: bool)
    ensures
        b == has_local_id(sources_view(sources@), id@),
{
    let ghost sv = sources_view(sources@);
    let mut i: usize = 0;
    while i < sources.len()
        invariant
            i <= sources.len(),
            sv == sources_view(sources@),
            forall|k: int| 0 <= k < i ==> #[trigger] sv[k].file_id != Some(id@),
        decreases sources.len() - i,
    {
        match &sources[i].file_id {
            Some(f) => {
                if *f == *id {
                    assert(sv[i as int].file_id == Some(id@));
                    return true;
                }
            },
            None => {},
        }
        assert(sv[i as int].file_id != Some(id@));
        i = i + 1;
    }
    false
}

/// Recomputes an entry's summary from its map or image,
/// its local sources and the context; nothing else of the entry changes. The
/// preview path of an image entry is resolved by the caller, which stats the
/// disk.
pub fn refresh_summary(entry: &mut ClipboardEntry, context: &SummaryContext, preview_path: Option<String>)
    requires
        old(entry).file_info matches Some(fi) ==> dir_files(dir_view(fi@)).len() <= u64::MAX,
        sizes_sum(entry_contents(opt_file_info(old(entry).file_info), opt_image(old(entry).image_info))) <= u64::MAX,
    ensures
        summary_view(final(entry).summary) == summary_of(
            old(entry).kind@,
            opt_file_info(old(entry).file_info),
            opt_image(old(entry).image_info),
            sources_view(old(entry).sources.files@),
            strings_view(context.stored@),
            strings_view(context.blobs@),
            opt_chars(preview_path),
        ),
        final(entry).id == old(entry).id,
        final(entry).kind == old(entry).kind,
        final(entry).content == old(entry).content,
        final(entry).html == old(entry).html,
        final(entry).rtf == old(entry).rtf,
        final(entry).file_info == old(entry).file_info,
        final(entry).image_info == old(entry).image_info,
        final(entry).source_device_id == old(entry).source_device_id,
        final(entry).created_at == old(entry).created_at,
        final(entry).sources == old(entry).sources,
{
    let ghost fi = opt_file_info(entry.file_info);
    let ghost im = opt_image(entry.image_info);
    let ghost sv = sources_view(entry.sources.files@);
    let ghost st = strings_view(context.stored@);
    let ghost bl = strings_view(context.blobs@);
    let ghost ready = |id: Seq<char>| bl.contains(id) || has_local_id(sv, id);
    let (root, file_count, hashed_count): (String, u64, u64) = match &entry.file_info {
        Some(file_info) => (root_kind(file_info), count_files(file_info, false), count_files(file_info, true)),
        None => match &entry.image_info {
            Some(_) => (owned("file"), 1, 1),
            None => (String::new(), 0, 0),
        },
    };
    let contents = entry_contents_of(entry);
    let ghost cv = pairs_view(contents@);
    proof {
        lemma_tally_bounds(cv, st, ready);
    }
    let mut total: u64 = 0;
    let mut max: u64 = 0;
    let mut uploaded: u64 = 0;
    let mut ready_count: u64 = 0;
    let mut pending: u64 = 0;
    let mut pending_size: u64 = 0;
    let mut uploadable: Option<u64> = None;
    let mut i: usize = 0;
    while i < contents.len()
        invariant
            i <= contents.len(),
            cv == pairs_view(contents@),
            sizes_sum(cv) <= u64::MAX,
            sv == sources_view(entry.sources.files@),
            st == strings_view(context.stored@),
            bl == strings_view(context.blobs@),
            ready == (|id: Seq<char>| bl.contains(id) || has_local_id(sv, id)),
            ({
                let t = tally(cv.take(i as int), st, ready);
                &&& total == t.total
                &&& max == t.max
                &&& uploaded == t.uploaded
                &&& ready_count == t.ready
                &&& pending == t.pending
                &&& pending_size == t.pending_size
                &&& opt_nat(uploadable) == t.uploadable
            }),
            i <= cv.len(),
        decreases contents.len() - i,
    {
        let ghost pre = cv.take(i + 1);
        proof {
            assert(pre.drop_last() =~= cv.take(i as int));
            assert(pre.last() == cv[i as int]);
            lemma_tally_bounds(pre, st, ready);
            lemma_sizes_sum_prefix(cv, i + 1);
        }
        let id = &contents[i].0;
        let size = contents[i].1;
        assert(cv[i as int] == (id@, size));
        let is_ready = contains_string(&context.blobs, id.as_str()) || has_local_source(&entry.sources.files, id);
        let is_stored = contains_string(&context.stored, id.as_str());
        total = total + size;
        if size > max {
            max = size;
        }
        if is_stored {
            uploaded = uploaded + 1;
        }
        if is_ready {
            ready_count = ready_count + 1;
            if !is_stored {
                uploadable = match uploadable {
                    Some(u) => Some(if u <= size { u } else { size }),
                    None => Some(size),
                };
            }
        } else {
            pending = pending + 1;
            pending_size = pending_size + size;
        }
        i = i + 1;
    }
    assert(cv.take(contents.len() as int) =~= cv);
    let image_kind = owned("image");
    let preview = if entry.kind == image_kind {
        preview_path
    } else {
        None
    };
    proof {
        reveal_strlit("image");
        reveal_strlit("file");
    }
    entry.summary = EntrySummary {
        root_kind: root,
        file_count,
        hashed_count,
        content_count: contents.len() as u64,
        total_size: total,
        max_file_size: max,
        uploaded_count: uploaded,
        ready_count,
        pending_count: pending,
        pending_size,
        uploadable_size: uploadable,
        preview_path: preview,
    };
}

proof fn lemma_sizes_sum_prefix(cs: Seq<(Seq<char>, u64)>, i: int)
    requires
        0 <= i <= cs.len(),
    ensures
        sizes_sum(cs.take(i)) <= sizes_sum(cs),
    decreases cs.len(),
{
    if i < cs.len() {
        lemma_sizes_sum_prefix(cs.drop_last(), i);
        assert(cs.drop_last().take(i) =~= cs.take(i));
    } else {
        assert(cs.take(i) =~= cs);
    }
}

} // verus!

verus! {

fn copy_opt(o: &Option<String>) -> (r: Option<String>)
    ensures
        opt_chars(r) == opt_chars(*o),
{
    match o {
        Some(s) => Some(s.clone()),
        None => None,
    }
}

fn copy_summary(s: &EntrySummary) -> (r: EntrySummary)
    ensures
        summary_view(r) == summary_view(*s),
{
    EntrySummary {
        root_kind: s.root_kind.clone(),
        file_count: s.file_count,
        hashed_count: s.hashed_count,
        content_count: s.content_count,
        total_size: s.total_size,
        max_file_size: s.max_file_size,
        uploaded_count: s.uploaded_count,
        ready_count: s.ready_count,
        pending_count: s.pending_count,
        pending_size: s.pending_size,
        uploadable_size: s.uploadable_size,
        preview_path: copy_opt(&s.preview_path),
    }
}

fn copy_source(s: &LocalSource) -> (r: LocalSource)
    ensures
        source_view(r) == source_view(*s),
{
    LocalSource {
        path: s.path.clone(),
        source: s.source.clone(),
        size: s.size,
        modified_at: s.modified_at,
        file_id: copy_opt(&s.file_id),
    }
}

fn copy_strings(v: &Vec<String>) -> (r: Vec<String>)
    ensures
        strings_view(r@) == strings_view(v@),
{
    let mut r: Vec<String> = Vec::new();
    let mut i: usize = 0;
    while i < v.len()
        invariant
            i <= v.len(),
            r@.len() == i,
            strings_view(r@) == strings_view(v@).take(i as int),
        decreases v.len() - i,
    {
        let c = v[i].clone();
        assert(c@ == v@[i as int]@);
        let ghost before = r@;
        r.push(c);
        assert forall|k: int| 0 <= k < i + 1 implies #[trigger] strings_view(r@)[k] == strings_view(v@).take(i + 1)[k] by {
            if k < i {
                assert(r@[k] == before[k]);
                assert(strings_view(before)[k] == strings_view(v@).take(i as int)[k]);
            }
        }
        assert(strings_view(r@) =~= strings_view(v@).take(i + 1));
        i = i + 1;
    }
    assert(strings_view(v@).take(v.len() as int) =~= strings_view(v@));
    r
}

/// `light` is the list copy of `entry`.
pub open spec fn light_of(light: ClipboardEntry, entry: ClipboardEntry) -> bool {
    &&& light.id@ == entry.id@
    &&& light.kind@ == entry.kind@
    &&& light.content@ == (if entry.kind@ == "files"@ && entry.file_info is Some {
        describe_roots_of(dir_view(entry.file_info->0@))
    } else {
        entry.content@
    })
    &&& light.html is None
    &&& light.rtf is None
    &&& light.file_info is None
    &&& light.image_info is None
    &&& light.source_device_id@ == entry.source_device_id@
    &&& light.created_at@ == entry.created_at@
    &&& summary_view(light.summary) == summary_view(entry.summary)
    &&& light.sources.roots@.len() == 0
    &&& light.sources.files@.len() == 0
}

/// The copy of an entry that lists render: no rich
/// text, map, image or local sources; a files entry's content is its roots'
/// description.
pub fn lightweight_entry(entry: &ClipboardEntry) -> (light: ClipboardEntry)
    ensures
        light_of(light, *entry),
{
    let files_kind = owned("files");
    proof {
        reveal_strlit("files");
    }
    let content = if entry.kind == files_kind {
        match &entry.file_info {
            Some(file_info) => describe_roots(file_info),
            None => entry.content.clone(),
        }
    } else {
        entry.content.clone()
    };
    ClipboardEntry {
        id: entry.id.clone(),
        kind: entry.kind.clone(),
        content,
        html: None,
        rtf: None,
        file_info: None,
        image_info: None,
        source_device_id: entry.source_device_id.clone(),
        created_at: entry.created_at.clone(),
        summary: copy_summary(&entry.summary),
        sources: LocalSources { roots: Vec::new(), files: Vec::new() },
    }
}

/// The sources whose path is one of `paths`, in order.
pub open spec fn sources_at(files: Seq<SourceView>, paths: Seq<Seq<char>>) -> Seq<SourceView>
    decreases files.len(),
{
    if files.len() == 0 {
        Seq::empty()
    } else if paths.contains(files.last().path) {
        sources_at(files.drop_last(), paths).push(files.last())
    } else {
        sources_at(files.drop_last(), paths)
    }
}

/// Keeps this machine's local paths on an entry that came back from the
/// server, but only when the map still has as many
/// roots as were copied here; then only sources at a file path of the map
/// stay.
pub fn preserve_local_sources(remote: &mut ClipboardEntry, local: &ClipboardEntry)
    ensures
        final(remote).id == old(remote).id,
        final(remote).kind == old(remote).kind,
        final(remote).content == old(remote).content,
        final(remote).html == old(remote).html,
        final(remote).rtf == old(remote).rtf,
        final(remote).file_info == old(remote).file_info,
        final(remote).image_info == old(remote).image_info,
        final(remote).source_device_id == old(remote).source_device_id,
        final(remote).created_at == old(remote).created_at,
        final(remote).summary == old(remote).summary,
        ({
            let matches = old(remote).file_info is Some && local.sources.roots@.len()
                == old(remote).file_info->0@.len();
            &&& !matches ==> final(remote).sources == old(remote).sources
            &&& matches ==> strings_view(final(remote).sources.roots@) == strings_view(local.sources.roots@)
                && sources_view(final(remote).sources.files@) == sources_at(
                sources_view(local.sources.files@),
                dir_leaf_paths(dir_view(old(remote).file_info->0@), Seq::empty()),
            )
        }),
{
    let paths = match &remote.file_info {
        None => {
            return;
        },
        Some(file_info) => {
            if local.sources.roots.len() != file_info.len() {
                return;
            }
            collect_paths(file_info)
        },
    };
    let ghost pv = strings_view(paths@);
    let ghost lv = sources_view(local.sources.files@);
    let mut files: Vec<LocalSource> = Vec::new();
    let mut i: usize = 0;
    while i < local.sources.files.len()
        invariant
            i <= local.sources.files.len(),
            pv == strings_view(paths@),
            lv == sources_view(local.sources.files@),
            sources_view(files@) == sources_at(lv.take(i as int), pv),
        decreases local.sources.files.len() - i,
    {
        assert(lv.take(i + 1).drop_last() =~= lv.take(i as int));
        assert(lv.take(i + 1).last() == source_view(local.sources.files@[i as int]));
        if contains_string(&paths, local.sources.files[i].path.as_str()) {
            let ghost before = sources_view(files@);
            files.push(copy_source(&local.sources.files[i]));
            assert(sources_view(files@) =~= before.push(source_view(local.sources.files@[i as int])));
        }
        i = i + 1;
    }
    assert(lv.take(lv.len() as int) =~= lv);
    let roots = copy_strings(&local.sources.roots);
    remote.sources = LocalSources { roots, files };
}

} // verus!

verus! {

/// Whether a list of contents has one with this id.
pub open spec fn contains_id_of_seq(s: Seq<(Seq<char>, u64)>, id: Seq<char>) -> bool {
    exists|k: int| 0 <= k < s.len() && #[trigger] s[k].0 == id
}

} // verus!

verus! {

impl Default for EntrySummary {
    /// The summary of an entry nothing is known about yet.
    fn default() -> (s: EntrySummary)
        ensures
            s.root_kind@.len() == 0,
            s.file_count == 0 && s.hashed_count == 0 && s.content_count == 0,
            s.total_size == 0 && s.max_file_size == 0 && s.uploaded_count == 0,
            s.ready_count == 0 && s.pending_count == 0 && s.pending_size == 0,
            s.uploadable_size is None && s.preview_path is None,
    {
        EntrySummary {
            root_kind: String::new(),
            file_count: 0,
            hashed_count: 0,
            content_count: 0,
            total_size: 0,
            max_file_size: 0,
            uploaded_count: 0,
            ready_count: 0,
            pending_count: 0,
            pending_size: 0,
            uploadable_size: None,
            preview_path: None,
        }
    }
}

impl Default for LocalSources {
    /// No local origin.
    fn default() -> (s: LocalSources)
        ensures
            s.roots@.len() == 0,
            s.files@.len() == 0,
    {
        LocalSources { roots: Vec::new(), files: Vec::new() }
    }
}

} // verus!

verus! {

// ---------------------------------------------------------------------------
// Local sources on disk
// ---------------------------------------------------------------------------

/// Whether a local source still holds the content it was hashed from:
/// it is a regular file of the recorded size, and of
/// the recorded modification time when one was recorded.
pub open spec fn source_unchanged(s: SourceView, is_file: bool, len: u64, modified_at: Option<u64>) -> bool {
    is_file && len == s.size && (s.modified_at is None || modified_at == s.modified_at)
}

/// Decides from the file's current metadata whether a local source can
/// stand in for its content.
pub fn source_is_unchanged(source: &LocalSource, is_file: bool, len: u64, modified_at: Option<u64>) -> (r: bool)
    ensures
        r == source_unchanged(source_view(*source), is_file, len, modified_at),
{
    is_file && len == source.size && (source.modified_at.is_none() || modified_at == source.modified_at)
}

/// The sources of `id`, in order: those a content may be read back from.
pub open spec fn sources_of_content(srcs: Seq<SourceView>, id: Seq<char>) -> Seq<SourceView>
    decreases srcs.len(),
{
    if srcs.len() == 0 {
        Seq::empty()
    } else if srcs.last().file_id == Some(id) {
        sources_of_content(srcs.drop_last(), id).push(srcs.last())
    } else {
        sources_of_content(srcs.drop_last(), id)
    }
}

/// The local sources recorded for content `file_id`, in order; the first
/// that is unchanged on disk is the one read.
pub fn local_sources_for(entry: &ClipboardEntry, file_id: &str) -> (r: Vec<LocalSource>)
    ensures
        sources_view(r@) == sources_of_content(sources_view(entry.sources.files@), file_id@),
{
    let ghost all = sources_view(entry.sources.files@);
    let mut r: Vec<LocalSource> = Vec::new();
    let mut i: usize = 0;
    while i < entry.sources.files.len()
        invariant
            i <= entry.sources.files.len(),
            all == sources_view(entry.sources.files@),
            sources_view(r@) == sources_of_content(all.take(i as int), file_id@),
        decreases entry.sources.files.len() - i,
    {
        let s = &entry.sources.files[i];
        proof {
            assert(all.take(i + 1).drop_last() =~= all.take(i as int));
            assert(all.take(i + 1).last() == all[i as int]);
        }
        let matches = match &s.file_id {
            Some(id) => crate::text::str_eq(id.as_str(), file_id),
            None => false,
        };
        if matches {
            let copy = LocalSource {
                path: owned(s.path.as_str()),
                source: owned(s.source.as_str()),
                size: s.size,
                modified_at: s.modified_at,
                file_id: Some(owned(file_id)),
            };
            let ghost before = r@;
            r.push(copy);
            proof {
                assert(sources_view(r@) =~= sources_view(before).push(all[i as int]));
            }
        }
        i = i + 1;
    }
    proof {
        assert(all.take(entry.sources.files.len() as int) =~= all);
    }
    r
}

/// The sources still waiting for their content id, in order.
pub open spec fn unresolved_of(srcs: Seq<SourceView>) -> Seq<SourceView>
    decreases srcs.len(),
{
    if srcs.len() == 0 {
        Seq::empty()
    } else if srcs.last().file_id is None {
        unresolved_of(srcs.drop_last()).push(srcs.last())
    } else {
        unresolved_of(srcs.drop_last())
    }
}

/// The sources of an entry that still have to be hashed.
pub fn unresolved_sources(entry: &ClipboardEntry) -> (r: Vec<LocalSource>)
    ensures
        sources_view(r@) == unresolved_of(sources_view(entry.sources.files@)),
{
    let ghost all = sources_view(entry.sources.files@);
    let mut r: Vec<LocalSource> = Vec::new();
    let mut i: usize = 0;
    while i < entry.sources.files.len()
        invariant
            i <= entry.sources.files.len(),
            all == sources_view(entry.sources.files@),
            sources_view(r@) == unresolved_of(all.take(i as int)),
        decreases entry.sources.files.len() - i,
    {
        let s = &entry.sources.files[i];
        proof {
            assert(all.take(i + 1).drop_last() =~= all.take(i as int));
            assert(all.take(i + 1).last() == all[i as int]);
        }
        if s.file_id.is_none() {
            let copy = LocalSource {
                path: owned(s.path.as_str()),
                source: owned(s.source.as_str()),
                size: s.size,
                modified_at: s.modified_at,
                file_id: None,
            };
            let ghost before = r@;
            r.push(copy);
            proof {
                assert(sources_view(r@) =~= sources_view(before).push(all[i as int]));
            }
        }
        i = i + 1;
    }
    proof {
        assert(all.take(entry.sources.files.len() as int) =~= all);
    }
    r
}

/// The modification time the hash cache is keyed by: the time in
/// milliseconds as a signed integer, or -1 when none was recorded.
pub fn hash_cache_time(modified_at: Option<u64>) -> (t: i64)
    ensures
        t == match modified_at {
            Some(v) => v as i64,
            None => -1i64,
        },
{
    match modified_at {
        Some(v) => v as i64,
        None => -1,
    }
}

/// Whether a list of contents holds content `id`.
pub open spec fn references_content(contents: Seq<(Seq<char>, u64)>, id: Seq<char>) -> bool {
    exists|i: int| 0 <= i < contents.len() && (#[trigger] contents[i]).0 == id
}

/// Whether an entry references content `file_id`.
pub fn entry_references(entry: &ClipboardEntry, file_id: &str) -> (r: bool)
    ensures
        r == references_content(entry_contents(opt_file_info(entry.file_info), opt_image(entry.image_info)), file_id@),
{
    let contents = entry_contents_of(entry);
    let ghost cv = entry_contents(opt_file_info(entry.file_info), opt_image(entry.image_info));
    let mut i: usize = 0;
    while i < contents.len()
        invariant
            i <= contents.len(),
            pairs_view(contents@) == cv,
            cv == entry_contents(opt_file_info(entry.file_info), opt_image(entry.image_info)),
            forall|k: int| 0 <= k < i ==> (#[trigger] cv[k]).0 != file_id@,
        decreases contents.len() - i,
    {
        assert(cv[i as int].0 == contents@[i as int].0@);
        if crate::text::str_eq(contents[i].0.as_str(), file_id) {
            assert(cv[i as int].0 == file_id@);
            return true;
        }
        i = i + 1;
    }
    false
}

} // verus!
