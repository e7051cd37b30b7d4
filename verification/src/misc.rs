//! Smaller pieces of the capture and sync paths: shares received on mobile,
//! how a files entry is pasted, which content ids are new to this device,
//! the clock, and the image repeat detector.

use vstd::prelude::*;
use crate::entry::ClipboardEntry;
use crate::hashing::{fnv, fnv1a};
use crate::text::{append_str, chars_of, decimal, decimal_string, hex16, hex_fixed, matches_at, owned, trim, trimmed};
use crate::tree::{contains_string, strings_view};

verus! {

// ---------------------------------------------------------------------------
// Shares received on mobile
// ---------------------------------------------------------------------------

/// One file another app shared with this one.
#[derive(Clone, Debug)]
pub struct SharedItem {
    pub path: String,
    pub name: String,
    pub mime_type: String,
}

/// A share waiting to be imported.
#[derive(Clone, Debug)]
pub struct PendingShare {
    pub id: String,
    pub text: Option<String>,
    pub html: Option<String>,
    pub items: Vec<SharedItem>,
}

/// What importing a share captures.
#[derive(Clone, Debug)]
pub struct ShareImportPlan {
    pub text: bool,
    pub image: bool,
    pub files: bool,
}

/// Whether the share's text has something besides white space.
pub open spec fn share_has_text(text: Option<String>) -> bool {
    text is Some && trim(text->0@).len() > 0
}

/// Whether the share is one image.
pub open spec fn share_is_image(items: Seq<SharedItem>) -> bool {
    items.len() == 1 && items[0].mime_type@.len() >= 6 && items[0].mime_type@.take(6) == "image/"@
}

/// What a share becomes: its non-blank text a text
/// capture; a single image item an image capture; any other items one files
/// capture.
pub fn plan_share_import(share: &PendingShare) -> (plan: ShareImportPlan)
    ensures
        plan.text == share_has_text(share.text),
        plan.image == share_is_image(share.items@),
        plan.files == (!share_is_image(share.items@) && share.items@.len() > 0),
{
    let text = match &share.text {
        Some(t) => {
            let cs = chars_of(t.as_str());
            let trimmed_text = trimmed(cs.as_slice());
            trimmed_text.len() > 0
        },
        None => false,
    };
    let mut image = false;
    if share.items.len() == 1 {
        let mime = chars_of(share.items[0].mime_type.as_str());
        let prefix = chars_of("image/");
        proof {
            reveal_strlit("image/");
        }
        image = matches_at(mime.as_slice(), 0, prefix.as_slice());
        assert(mime@.subrange(0, 6) =~= mime@.take(6));
    }
    ShareImportPlan { text, image, files: !image && share.items.len() > 0 }
}

// ---------------------------------------------------------------------------
// Pasting files
// ---------------------------------------------------------------------------

/// How a files entry reaches the clipboard.
#[derive(Clone, Copy, PartialEq, Eq, Structural, Debug)]
pub enum FilePasteStrategy {
    /// File descriptors whose bytes stream in when the paste starts.
    VirtualStream,
    /// Real files rebuilt on disk first.
    MaterializedPaths,
}

impl FilePasteStrategy {
    /// The strategy for an entry: virtual streams for a files
    /// entry where the platform can paste it that way.
    pub fn for_entry(entry: &ClipboardEntry, virtual_supported: bool) -> (s: FilePasteStrategy)
        ensures
            s == (if entry.kind@ == "files"@ && virtual_supported {
                FilePasteStrategy::VirtualStream
            } else {
                FilePasteStrategy::MaterializedPaths
            }),
    {
        let files = owned("files");
        proof {
            reveal_strlit("files");
        }
        if entry.kind == files && virtual_supported {
            FilePasteStrategy::VirtualStream
        } else {
            FilePasteStrategy::MaterializedPaths
        }
    }

    /// Whether every content must be on this machine before a paste starts:
    /// always for an image, and for files
    /// that are rebuilt on disk.
    pub fn requires_complete_content(self, kind: &str) -> (b: bool)
        ensures
            b == (kind@ == "image"@ || (kind@ == "files"@ && self == FilePasteStrategy::MaterializedPaths)),
    {
        let k = owned(kind);
        let image = owned("image");
        let files = owned("files");
        proof {
            reveal_strlit("image");
            reveal_strlit("files");
        }
        k == image || (k == files && self == FilePasteStrategy::MaterializedPaths)
    }
}

/// What writing an entry to the clipboard puts there.
#[derive(Clone, Copy, PartialEq, Eq, Structural, Debug)]
pub enum PastePayload {
    /// The copied roots themselves, still intact on this machine.
    CopiedRoots,
    /// File descriptors whose bytes stream in when the paste starts.
    VirtualFiles,
    /// The file map rebuilt under the cache's views.
    RebuiltPaths,
    Image,
    Text,
}

/// The payload for an entry of `kind`: a files
/// entry without a file map is refused; one whose roots all still exist,
/// one per root of the map, pastes them as they are; otherwise it streams
/// where the platform can, and is rebuilt on disk where it cannot.
pub open spec fn paste_payload_of(
    kind: Seq<char>,
    has_file_info: bool,
    roots: nat,
    map_roots: nat,
    roots_exist: bool,
    virtual_supported: bool,
) -> Result<PastePayload, Seq<char>> {
    if kind == "files"@ {
        if !has_file_info {
            Err("该记录不包含文件"@)
        } else if roots > 0 && roots == map_roots && roots_exist {
            Ok(PastePayload::CopiedRoots)
        } else if virtual_supported {
            Ok(PastePayload::VirtualFiles)
        } else {
            Ok(PastePayload::RebuiltPaths)
        }
    } else if kind == "image"@ {
        Ok(PastePayload::Image)
    } else {
        Ok(PastePayload::Text)
    }
}

pub open spec fn payload_chars(r: Result<PastePayload, String>) -> Result<PastePayload, Seq<char>> {
    match r {
        Ok(p) => Ok(p),
        Err(e) => Err(e@),
    }
}

/// Decides how an entry is written to the clipboard; `roots_exist` says
/// whether every copied root still exists, `virtual_supported` whether the
/// platform can stream this entry's files.
pub fn paste_payload(entry: &ClipboardEntry, roots_exist: bool, virtual_supported: bool) -> (r: Result<
    PastePayload,
    String,
>)
    ensures
        payload_chars(r) == paste_payload_of(
            entry.kind@,
            entry.file_info is Some,
            entry.sources.roots.len() as nat,
            match entry.file_info {
                Some(f) => f.len() as nat,
                None => 0,
            },
            roots_exist,
            virtual_supported,
        ),
{
    let files = owned("files");
    let image = owned("image");
    proof {
        reveal_strlit("files");
        reveal_strlit("image");
    }
    if entry.kind == files {
        match &entry.file_info {
            None => Err(owned("该记录不包含文件")),
            Some(file_info) => {
                let roots = entry.sources.roots.len();
                if roots > 0 && roots == file_info.len() && roots_exist {
                    Ok(PastePayload::CopiedRoots)
                } else if virtual_supported {
                    Ok(PastePayload::VirtualFiles)
                } else {
                    Ok(PastePayload::RebuiltPaths)
                }
            },
        }
    } else if entry.kind == image {
        Ok(PastePayload::Image)
    } else {
        Ok(PastePayload::Text)
    }
}

/// The payload for an entry activated from another device:
/// files are never written on their own, images
/// and text are.
pub open spec fn activation_payload_of(kind: Seq<char>) -> Result<PastePayload, Seq<char>> {
    if kind == "files"@ {
        Err("文件和文件夹不会自动写入漫游剪贴板"@)
    } else if kind == "image"@ {
        Ok(PastePayload::Image)
    } else {
        Ok(PastePayload::Text)
    }
}

/// Decides what a remote activation writes, from the entry's kind.
pub fn activation_payload(kind: &str) -> (r: Result<PastePayload, String>)
    ensures
        payload_chars(r) == activation_payload_of(kind@),
{
    let k = owned(kind);
    let files = owned("files");
    let image = owned("image");
    proof {
        reveal_strlit("files");
        reveal_strlit("image");
    }
    if k == files {
        Err(owned("文件和文件夹不会自动写入漫游剪贴板"))
    } else if k == image {
        Ok(PastePayload::Image)
    } else {
        Ok(PastePayload::Text)
    }
}

// ---------------------------------------------------------------------------
// Content ids new to this device
// ---------------------------------------------------------------------------

/// The ids worth asking the server about, in order: not empty, not seen
/// before in the list, and neither cached here nor known to be stored.
pub open spec fn unknown_ids_of(ids: Seq<Seq<char>>, cached: Seq<Seq<char>>, uploaded: Seq<Seq<char>>) -> Seq<Seq<char>>
    decreases ids.len(),
{
    if ids.len() == 0 {
        Seq::empty()
    } else {
        let prev = unknown_ids_of(ids.drop_last(), cached, uploaded);
        let id = ids.last();
        if id.len() == 0 || ids.drop_last().contains(id) || cached.contains(id) || uploaded.contains(id) {
            prev
        } else {
            prev.push(id)
        }
    }
}

/// The content ids of a list this device knows nothing about.
pub fn filter_unknown_file_ids(file_ids: &Vec<String>, cached: &Vec<String>, uploaded: &Vec<String>) -> (unknown: Vec<
    String,
>)
    ensures
        strings_view(unknown@) == unknown_ids_of(strings_view(file_ids@), strings_view(cached@), strings_view(uploaded@)),
{
    let ghost ids = strings_view(file_ids@);
    let mut unknown: Vec<String> = Vec::new();
    let mut seen: Vec<String> = Vec::new();
    let mut i: usize = 0;
    assert(ids.take(0) =~= Seq::<Seq<char>>::empty());
    assert(strings_view(unknown@) =~= Seq::<Seq<char>>::empty());
    assert(strings_view(seen@) =~= ids.take(0));
    while i < file_ids.len()
        invariant
            i <= file_ids.len(),
            ids == strings_view(file_ids@),
            strings_view(seen@) == ids.take(i as int),
            strings_view(unknown@) == unknown_ids_of(ids.take(i as int), strings_view(cached@), strings_view(uploaded@)),
        decreases file_ids.len() - i,
    {
        let id = &file_ids[i];
        assert(ids.take(i + 1).drop_last() =~= ids.take(i as int));
        assert(ids.take(i + 1).last() == id@);
        let repeated = contains_string(&seen, id.as_str());
        let known = contains_string(cached, id.as_str()) || contains_string(uploaded, id.as_str());
        if !(id.as_str().is_empty() || repeated || known) {
            let ghost before = strings_view(unknown@);
            unknown.push(id.clone());
            assert(strings_view(unknown@) =~= before.push(id@));
        }
        let ghost before_seen = strings_view(seen@);
        seen.push(id.clone());
        assert(strings_view(seen@) =~= before_seen.push(id@));
        i = i + 1;
    }
    assert(ids.take(file_ids.len() as int) =~= ids);
    unknown
}

// ---------------------------------------------------------------------------
// Clock
// ---------------------------------------------------------------------------

/// `SystemTime::now().duration_since(UNIX_EPOCH)` in milliseconds; `None`
/// when the clock is before the epoch. Nothing is promised of the reading.
#[verifier::external_body]
fn clock_millis() -> (r: Option<u128>) {
    match std::time::SystemTime::now().duration_since(std::time::UNIX_EPOCH) {
        Ok(elapsed) => Some(elapsed.as_millis()),
        Err(_) => None,
    }
}

/// Milliseconds from a clock reading: the low 64 bits, 0 before the epoch.
pub fn millis_from_clock(reading: Option<u128>) -> (ms: u64)
    ensures
        ms == match reading {
            Some(m) => m as u64,
            None => 0,
        },
{
    match reading {
        Some(m) => m as u64,
        None => 0,
    }
}

/// The current time in milliseconds since the epoch.
pub fn now_millis() -> (ms: u64) {
    millis_from_clock(clock_millis())
}

// ---------------------------------------------------------------------------
// Image repeat detection
// ---------------------------------------------------------------------------

/// An encoded image decoded to RGBA: width, height and pixel bytes; `None`
/// when the bytes are no image the decoder knows.
pub uninterp spec fn decoded_rgba(bytes: Seq<u8>) -> Option<(u32, u32, Seq<u8>)>;

/// `image::load_from_memory` and `into_rgba8`: the contract names the
/// decoded pixels and says nothing more of them.
#[verifier::external_body]
fn decode_rgba(bytes: &[u8]) -> (r: Option<(u32, u32, Vec<u8>)>)
    ensures
        match r {
            None => decoded_rgba(bytes@) is None,
            Some(p) => decoded_rgba(bytes@) == Some((p.0, p.1, p.2@)),
        },
{
    match image::load_from_memory(bytes) {
        Ok(decoded) => {
            let rgba = decoded.into_rgba8();
            let (width, height) = rgba.dimensions();
            Some((width, height, rgba.into_raw()))
        },
        Err(_) => None,
    }
}

/// The signature of an image: `<w>x<h>:<fnv of the pixels>` when it
/// decodes, `<byte length>:<fnv of the bytes>` when it does not.
pub open spec fn image_signature_of(image: Seq<u8>, decoded: Option<(u32, u32, Seq<u8>)>) -> Seq<char> {
    match decoded {
        Some((w, h, pixels)) => decimal(w as nat) + "x"@ + decimal(h as nat) + ":"@ + hex_fixed(fnv(pixels) as nat, 16),
        None => decimal(image.len()) + ":"@ + hex_fixed(fnv(image) as nat, 16),
    }
}

pub open spec fn decoded_view(d: Option<(u32, u32, Vec<u8>)>) -> Option<(u32, u32, Seq<u8>)> {
    match d {
        Some(p) => Some((p.0, p.1, p.2@)),
        None => None,
    }
}

/// The signature for a decoded (or undecodable) image.
pub fn signature_from_pixels(image: &[u8], decoded: Option<(u32, u32, Vec<u8>)>) -> (sig: String)
    ensures
        sig@ == image_signature_of(image@, decoded_view(decoded)),
{
    match decoded {
        Some((w, h, pixels)) => {
            let mut sig = decimal_string(w as u64);
            append_str(&mut sig, "x");
            let hs = decimal_string(h as u64);
            append_str(&mut sig, hs.as_str());
            append_str(&mut sig, ":");
            let digest = hex16(fnv1a(pixels.as_slice()));
            append_str(&mut sig, digest.as_str());
            sig
        },
        None => {
            let mut sig = decimal_string(image.len() as u64);
            append_str(&mut sig, ":");
            let digest = hex16(fnv1a(image));
            append_str(&mut sig, digest.as_str());
            sig
        },
    }
}

/// The local repeat-detection signature of an image:
/// taken over canonical RGBA pixels, so the same picture read back in
/// another encoding is not captured again.
pub fn image_signature(image: &[u8]) -> (sig: String)
    ensures
        sig@ == image_signature_of(image@, decoded_rgba(image@)),
{
    let decoded = decode_rgba(image);
    signature_from_pixels(image, decoded)
}

// ---------------------------------------------------------------------------
// Screenshots
// ---------------------------------------------------------------------------

/// The longest edge of a screenshot's list thumbnail.
pub const THUMBNAIL_MAX_EDGE: u32 = 64;

/// A thumbnail larger than this is not kept with the entry.
pub const THUMBNAIL_MAX_BYTES: usize = 73728;

/// What the image crate makes of an image: its WebP encoding, its pixel
/// size, and the WebP encoding of a thumbnail that fits `max_edge` on both
/// sides; or the error it reports.
pub uninterp spec fn webp_transcoding(image: Seq<u8>, max_edge: u32) -> Result<(Seq<u8>, u32, u32, Seq<u8>), Seq<char>>;

pub open spec fn transcoded_view(r: Result<(Vec<u8>, u32, u32, Vec<u8>), String>) -> Result<(Seq<u8>, u32, u32, Seq<u8>), Seq<char>> {
    match r {
        Ok((webp, w, h, thumb)) => Ok((webp@, w, h, thumb@)),
        Err(e) => Err(e@),
    }
}

/// `image::load_from_memory`, then `write_to` as WebP of the image and of
/// its `thumbnail`: the contract names the result and says nothing more of
/// it. `thumbnail` scales small images up to the bound, so the bound is kept
/// to thumbnail sizes, whose pixel buffer always fits.
#[verifier::external_body]
fn transcode_webp(image: &[u8], max_edge: u32) -> (r: Result<(Vec<u8>, u32, u32, Vec<u8>), String>)
    requires
        max_edge <= THUMBNAIL_MAX_EDGE,
    ensures
        transcoded_view(r) == webp_transcoding(image@, max_edge),
{
    let decoded = image::load_from_memory(image).map_err(|error| error.to_string())?;
    let mut output = std::io::Cursor::new(Vec::new());
    decoded.write_to(&mut output, image::ImageFormat::WebP).map_err(|error| error.to_string())?;
    let mut thumbnail = std::io::Cursor::new(Vec::new());
    decoded.thumbnail(max_edge, max_edge).write_to(&mut thumbnail, image::ImageFormat::WebP).map_err(
        |error| error.to_string(),
    )?;
    Ok((output.into_inner(), decoded.width(), decoded.height(), thumbnail.into_inner()))
}

/// What the image crate makes of an image written as BMP, or its error.
pub uninterp spec fn bmp_transcoding(image: Seq<u8>) -> Result<Seq<u8>, Seq<char>>;

pub open spec fn bytes_result_view(r: Result<Vec<u8>, String>) -> Result<Seq<u8>, Seq<char>> {
    match r {
        Ok(b) => Ok(b@),
        Err(e) => Err(e@),
    }
}

/// `image::load_from_memory`, then `write_to` as BMP: the contract names the
/// result and says nothing more of it.
#[verifier::external_body]
fn transcode_bmp(image: &[u8]) -> (r: Result<Vec<u8>, String>)
    ensures
        bytes_result_view(r) == bmp_transcoding(image@),
{
    let decoded = image::load_from_memory(image).map_err(|error| error.to_string())?;
    let mut output = std::io::Cursor::new(Vec::new());
    decoded.write_to(&mut output, image::ImageFormat::Bmp).map_err(|error| error.to_string())?;
    Ok(output.into_inner())
}

/// The standard base64 text of some bytes, with padding.
pub uninterp spec fn base64_standard(bytes: Seq<u8>) -> Seq<char>;

/// `base64::engine::general_purpose::STANDARD.encode`: the contract names
/// the text and says nothing more of it.
#[verifier::external_body]
fn base64_encode(bytes: &[u8]) -> (r: String)
    ensures
        r@ == base64_standard(bytes@),
{
    <base64::engine::GeneralPurpose as base64::Engine>::encode(&base64::engine::general_purpose::STANDARD, bytes)
}

/// The thumbnail text kept with a screenshot: the base64 of the WebP
/// thumbnail, unless it is larger than `THUMBNAIL_MAX_BYTES`.
pub fn thumbnail_text(thumbnail: &[u8]) -> (r: Option<String>)
    ensures
        thumbnail@.len() <= THUMBNAIL_MAX_BYTES ==> (r matches Some(t) && t@ == base64_standard(thumbnail@)),
        thumbnail@.len() > THUMBNAIL_MAX_BYTES ==> r is None,
{
    if thumbnail.len() <= THUMBNAIL_MAX_BYTES {
        Some(base64_encode(thumbnail))
    } else {
        None
    }
}

/// The largest chunk one upload read serves.
pub const FILE_CHUNK_LIMIT: usize = 131072;

/// How many bytes an upload read asks for: what the
/// caller asked, at most `FILE_CHUNK_LIMIT`.
pub fn upload_chunk_len(length: usize) -> (n: usize)
    ensures
        n == if length < FILE_CHUNK_LIMIT { length } else { FILE_CHUNK_LIMIT },
{
    if length < FILE_CHUNK_LIMIT {
        length
    } else {
        FILE_CHUNK_LIMIT
    }
}

/// The text an upload read hands back: the base64 of the bytes read.
pub fn upload_chunk_text(bytes: &[u8]) -> (r: String)
    ensures
        r@ == base64_standard(bytes@),
{
    base64_encode(bytes)
}

pub open spec fn encoded_image_view(r: Result<(Vec<u8>, u32, u32, Option<String>), String>) -> Result<
    (Seq<u8>, u32, u32, Option<Seq<char>>),
    Seq<char>,
> {
    match r {
        Ok((webp, w, h, t)) => Ok(
            (
                webp@,
                w,
                h,
                match t {
                    Some(s) => Some(s@),
                    None => None,
                },
            ),
        ),
        Err(e) => Err(e@),
    }
}

/// A captured screenshot as it is stored: its WebP
/// encoding, its pixel size and its thumbnail text, or the decoder's error.
pub fn encode_image_as_webp(image: &[u8]) -> (r: Result<(Vec<u8>, u32, u32, Option<String>), String>)
    ensures
        encoded_image_view(r) == match webp_transcoding(image@, THUMBNAIL_MAX_EDGE) {
            Err(e) => Err(e),
            Ok((webp, w, h, thumb)) => Ok(
                (webp, w, h, if thumb.len() <= THUMBNAIL_MAX_BYTES {
                    Some(base64_standard(thumb))
                } else {
                    None
                }),
            ),
        },
{
    match transcode_webp(image, THUMBNAIL_MAX_EDGE) {
        Err(e) => Err(e),
        Ok((webp, w, h, thumb)) => {
            let text = thumbnail_text(thumb.as_slice());
            Ok((webp, w, h, text))
        },
    }
}

/// A stored image written back as BMP for clipboards that want a bitmap,
/// or the decoder's error.
pub fn decode_image_as_bmp(image: &[u8]) -> (r: Result<Vec<u8>, String>)
    ensures
        bytes_result_view(r) == bmp_transcoding(image@),
{
    transcode_bmp(image)
}

} // verus!

verus! {

// ---------------------------------------------------------------------------
// Local garbage collection
// ---------------------------------------------------------------------------

/// How long a downloaded blob that no longer counts as cached is kept.
pub const DOWNLOAD_TTL_MS: u64 = 86400000;

/// Whether some entry references a content: its image, or a leaf of its map.
pub open spec fn referenced_by(entries: Seq<ClipboardEntry>, id: Seq<char>) -> bool {
    exists|i: int|
        0 <= i < entries.len() && crate::entry::contains_id_of_seq(
            #[trigger] crate::entry::entry_contents(
                crate::entry::opt_file_info(entries[i].file_info),
                crate::entry::opt_image(entries[i].image_info),
            ),
            id,
        )
}

/// Every content id the entries reference (the mark phase of the cache
/// sweep); an id may appear more than once.
pub fn referenced_file_ids(entries: &Vec<ClipboardEntry>) -> (ids: Vec<String>)
    ensures
        forall|id: Seq<char>| #[trigger] strings_view(ids@).contains(id) <==> referenced_by(entries@, id),
{
    let mut ids: Vec<String> = Vec::new();
    let mut i: usize = 0;
    while i < entries.len()
        invariant
            i <= entries.len(),
            forall|id: Seq<char>| #[trigger] strings_view(ids@).contains(id) <==> referenced_by(entries@.take(i as int), id),
        decreases entries.len() - i,
    {
        let contents = crate::entry::entry_contents_of(&entries[i]);
        let ghost cv = crate::tree::pairs_view(contents@);
        let ghost base = strings_view(ids@);
        let mut j: usize = 0;
        while j < contents.len()
            invariant
                j <= contents.len(),
                cv == crate::tree::pairs_view(contents@),
                strings_view(ids@) == base + Seq::new(j as nat, |k: int| cv[k].0),
                ids@.len() == base.len() + j,
            decreases contents.len() - j,
        {
            let c = contents[j].0.clone();
            assert(c@ == cv[j as int].0);
            let ghost before = ids@;
            ids.push(c);
            assert forall|k: int| 0 <= k < ids@.len() implies #[trigger] strings_view(ids@)[k] == (base + Seq::new(
                (j + 1) as nat,
                |k: int| cv[k].0,
            ))[k] by {
                if k < ids@.len() - 1 {
                    assert(ids@[k] == before[k]);
                    assert(strings_view(before)[k] == strings_view(ids@)[k]);
                }
            }
            assert(strings_view(ids@) =~= base + Seq::new((j + 1) as nat, |k: int| cv[k].0));
            j = j + 1;
        }
        proof {
            let e = entries@[i as int];
            let ec = crate::entry::entry_contents(crate::entry::opt_file_info(e.file_info), crate::entry::opt_image(e.image_info));
            assert(ec == cv);
            assert forall|id: Seq<char>| #[trigger] strings_view(ids@).contains(id) <==> referenced_by(entries@.take(i + 1), id) by {
                let added = Seq::new(contents@.len(), |k: int| cv[k].0);
                if strings_view(ids@).contains(id) {
                    let p = choose|p: int| 0 <= p < strings_view(ids@).len() && strings_view(ids@)[p] == id;
                    if p < base.len() {
                        assert(base[p] == id);
                        assert(base.contains(id));
                        let q = choose|q: int| 0 <= q < i && crate::entry::contains_id_of_seq(
                            #[trigger] crate::entry::entry_contents(
                                crate::entry::opt_file_info(entries@.take(i as int)[q].file_info),
                                crate::entry::opt_image(entries@.take(i as int)[q].image_info),
                            ),
                            id,
                        );
                        assert(entries@.take(i + 1)[q] == entries@.take(i as int)[q]);
                    } else {
                        assert(cv[p - base.len()].0 == id);
                        assert(crate::entry::contains_id_of_seq(ec, id));
                        assert(entries@.take(i + 1)[i as int] == e);
                    }
                }
                if referenced_by(entries@.take(i + 1), id) {
                    let q = choose|q: int| 0 <= q < i + 1 && crate::entry::contains_id_of_seq(
                        #[trigger] crate::entry::entry_contents(
                            crate::entry::opt_file_info(entries@.take(i + 1)[q].file_info),
                            crate::entry::opt_image(entries@.take(i + 1)[q].image_info),
                        ),
                        id,
                    );
                    if q < i {
                        assert(entries@.take(i + 1)[q] == entries@.take(i as int)[q]);
                        assert(referenced_by(entries@.take(i as int), id));
                        assert(base.contains(id));
                        let p = choose|p: int| 0 <= p < base.len() && base[p] == id;
                        assert(strings_view(ids@)[p] == id);
                    } else {
                        assert(entries@.take(i + 1)[q] == e);
                        let k = choose|k: int| 0 <= k < ec.len() && #[trigger] ec[k].0 == id;
                        assert(strings_view(ids@)[base.len() + k] == id);
                    }
                }
            }
        }
        i = i + 1;
    }
    assert(entries@.take(entries.len() as int) =~= entries@);
    ids
}

/// Whether a blob file goes in the sweep: one an entry references and this
/// device counts as cached stays; any other goes once it is unreferenced, or
/// older than a day, or of unknown age.
pub open spec fn blob_is_garbage(referenced: bool, cached: bool, modified_ms: Option<u64>, now_ms: u64) -> bool {
    let expired = match modified_ms {
        Some(t) => (if now_ms >= t { now_ms - t } else { 0 }) > DOWNLOAD_TTL_MS,
        None => true,
    };
    !(referenced && cached) && (!referenced || expired)
}

/// The sweep's verdict on one blob file.
pub fn should_remove_blob(
    file_id: &str,
    referenced: &Vec<String>,
    cached: &Vec<String>,
    modified_ms: Option<u64>,
    now_ms: u64,
) -> (remove: bool)
    ensures
        remove == blob_is_garbage(
            strings_view(referenced@).contains(file_id@),
            strings_view(cached@).contains(file_id@),
            modified_ms,
            now_ms,
        ),
{
    let is_referenced = contains_string(referenced, file_id);
    let is_cached = contains_string(cached, file_id);
    if is_referenced && is_cached {
        return false;
    }
    let expired = match modified_ms {
        Some(t) => now_ms.saturating_sub(t) > DOWNLOAD_TTL_MS,
        None => true,
    };
    !is_referenced || expired
}

/// The sweep never removes a blob an entry uses and this device counts as
/// cached, and always removes one no entry references.
pub proof fn law_sweep_keeps_what_entries_use(cached: bool, modified_ms: Option<u64>, now_ms: u64)
    ensures
        !blob_is_garbage(true, true, modified_ms, now_ms),
        blob_is_garbage(false, cached, modified_ms, now_ms),
{
}

// ---------------------------------------------------------------------------
// The hash cache
// ---------------------------------------------------------------------------

/// The most rows the hash cache keeps before it is halved.
pub const HASH_CACHE_LIMIT: i64 = 20000;

/// How many of the oldest hash-cache rows go after a write:
/// half of them once the cache holds more than
/// `HASH_CACHE_LIMIT`, none otherwise.
pub fn hash_cache_eviction(count: i64) -> (evict: Option<i64>)
    ensures
        count > HASH_CACHE_LIMIT ==> evict == Some((count / 2) as i64),
        count <= HASH_CACHE_LIMIT ==> evict is None,
{
    if count > HASH_CACHE_LIMIT {
        Some(count / 2)
    } else {
        None
    }
}

/// Whether a file the hash cache recorded can still stand in for its
/// content: a regular file of the recorded size (a
/// negative size matches nothing real), with the recorded modification time
/// unless none could be read then (`-1`).
pub open spec fn cached_source_unchanged(
    is_file: bool,
    len: u64,
    modified_ms: Option<u64>,
    size: i64,
    modified_at: i64,
) -> bool {
    &&& is_file
    &&& len == (if size >= 0 { size as u64 } else { u64::MAX })
    &&& (modified_at < 0 || modified_ms == Some(modified_at as u64))
}

/// Decides from a file's current metadata whether a hash-cache row still
/// describes it.
pub fn cached_source_is_unchanged(is_file: bool, len: u64, modified_ms: Option<u64>, size: i64, modified_at: i64) -> (r: bool)
    ensures
        r == cached_source_unchanged(is_file, len, modified_ms, size, modified_at),
{
    let recorded: u64 = if size >= 0 {
        size as u64
    } else {
        u64::MAX
    };
    is_file && len == recorded && (modified_at < 0 || modified_ms == Some(modified_at as u64))
}

} // verus!
