//! Content ids and local signatures: lower-case hex encoding, the shape a
//! content id must have, sha256 content ids and the FNV-1a repeat detectors.

use vstd::prelude::*;
use vstd::utf8::encode_utf8;
use crate::text::{
    append_char, chars_of, digit, digit_char, hex16, hex_fixed, is_lower_hex_digit, matches_at, owned,
    slice_string,
};

verus! {

// ---------------------------------------------------------------------------
// Hex
// ---------------------------------------------------------------------------

/// Every byte as two lower-case hex digits (`{byte:02x}`), concatenated.
pub open spec fn hex_bytes(b: Seq<u8>) -> Seq<char>
    decreases b.len(),
{
    if b.len() == 0 {
        Seq::empty()
    } else {
        hex_bytes(b.drop_last()) + hex_fixed(b.last() as nat, 2)
    }
}

pub proof fn lemma_hex_fixed_byte(b: u8)
    ensures
        hex_fixed(b as nat, 2) == seq![digit_char((b / 16) as nat), digit_char((b % 16) as nat)],
{
    reveal_with_fuel(hex_fixed, 3);
    assert((b as nat / 16) % 16 == b / 16);
    assert(hex_fixed(b as nat, 2) =~= seq![digit_char((b / 16) as nat), digit_char((b % 16) as nat)]);
}

pub proof fn lemma_hex_bytes_len(b: Seq<u8>)
    ensures
        hex_bytes(b).len() == 2 * b.len(),
    decreases b.len(),
{
    if b.len() > 0 {
        lemma_hex_bytes_len(b.drop_last());
        lemma_hex_fixed_byte(b.last());
    }
}

/// Lower-case hex of a byte string.
pub fn to_hex(bytes: &[u8]) -> (r: String)
    ensures
        r@ == hex_bytes(bytes@),
{
    let mut r = String::new();
    let mut i: usize = 0;
    while i < bytes.len()
        invariant
            i <= bytes.len(),
            r@ == hex_bytes(bytes@.take(i as int)),
        decreases bytes.len() - i,
    {
        let b = bytes[i];
        proof {
            lemma_hex_fixed_byte(b);
            assert(bytes@.take(i + 1).drop_last() =~= bytes@.take(i as int));
        }
        append_char(&mut r, digit(b / 16));
        append_char(&mut r, digit(b % 16));
        assert(r@ =~= hex_bytes(bytes@.take(i + 1)));
        i = i + 1;
    }
    assert(bytes@.take(bytes.len() as int) =~= bytes@);
    r
}

/// A content id is exactly sixty-four lower-case hex digits.
pub open spec fn file_id_shape(s: Seq<char>) -> bool {
    &&& s.len() == 64
    &&& forall|i: int| 0 <= i < s.len() ==> is_lower_hex_digit(#[trigger] s[i])
}

/// Whether a string has the shape of a content id. Content ids
/// decide where bytes land on disk, so the shape is checked before a path is
/// built from one.
pub fn is_file_id(value: &str) -> (b: bool)
    ensures
        b == file_id_shape(value@),
{
    let cs = chars_of(value);
    if cs.len() != 64 {
        return false;
    }
    let mut i: usize = 0;
    while i < cs.len()
        invariant
            i <= cs.len(),
            cs@ == value@,
            forall|k: int| 0 <= k < i ==> is_lower_hex_digit(#[trigger] cs@[k]),
        decreases cs.len() - i,
    {
        let c = cs[i];
        if !(('0' <= c && c <= '9') || ('a' <= c && c <= 'f')) {
            return false;
        }
        i = i + 1;
    }
    true
}

pub proof fn lemma_hex_bytes_shape(b: Seq<u8>)
    ensures
        forall|i: int| 0 <= i < hex_bytes(b).len() ==> is_lower_hex_digit(#[trigger] hex_bytes(b)[i]),
    decreases b.len(),
{
    if b.len() > 0 {
        lemma_hex_bytes_shape(b.drop_last());
        lemma_hex_fixed_byte(b.last());
        let a = hex_bytes(b.drop_last());
        let t = hex_fixed(b.last() as nat, 2);
        assert forall|i: int| 0 <= i < hex_bytes(b).len() implies is_lower_hex_digit(
            #[trigger] hex_bytes(b)[i],
        ) by {
            if i >= a.len() {
                assert(hex_bytes(b)[i] == t[i - a.len()]);
            } else {
                assert(hex_bytes(b)[i] == a[i]);
            }
        }
    }
}

// ---------------------------------------------------------------------------
// sha256
// ---------------------------------------------------------------------------

/// The SHA-256 digest of a byte string.
pub uninterp spec fn sha256_of(bytes: Seq<u8>) -> Seq<u8>;

/// `sha2::Sha256::digest`: the digest of `bytes`, always thirty-two bytes
/// long; the contract names the digest and says nothing more of it.
#[verifier::external_body]
fn sha256_digest(bytes: &[u8]) -> (d: Vec<u8>)
    ensures
        d@ == sha256_of(bytes@),
        d@.len() == 32,
{
    <sha2::Sha256 as sha2::Digest>::digest(bytes).to_vec()
}

/// The content id of a byte string: the hex of its sha256.
pub open spec fn content_id(bytes: Seq<u8>) -> Seq<char> {
    hex_bytes(sha256_of(bytes))
}

/// The content id of a byte string.
pub fn hash_bytes(bytes: &[u8]) -> (id: String)
    ensures
        id@ == content_id(bytes@),
        file_id_shape(id@),
{
    let digest = sha256_digest(bytes);
    proof {
        lemma_hex_bytes_len(digest@);
        lemma_hex_bytes_shape(digest@);
    }
    to_hex(digest.as_slice())
}

/// Byte strings laid end to end.
pub open spec fn concat_parts(parts: Seq<Seq<u8>>) -> Seq<u8>
    decreases parts.len(),
{
    if parts.len() == 0 {
        Seq::empty()
    } else {
        concat_parts(parts.drop_last()) + parts.last()
    }
}

/// The bytes of each chunk.
pub open spec fn parts_view(parts: Seq<Vec<u8>>) -> Seq<Seq<u8>> {
    parts.map_values(|v: Vec<u8>| v@)
}

/// `sha2::Sha256::new`, `update` with each chunk in turn, then `finalize`:
/// the digest of the chunks laid end to end, thirty-two bytes long; the
/// contract names the digest and says nothing more of it.
#[verifier::external_body]
fn sha256_digest_of_parts(parts: &Vec<Vec<u8>>) -> (d: Vec<u8>)
    ensures
        d@ == sha256_of(concat_parts(parts_view(parts@))),
        d@.len() == 32,
{
    let mut hasher = <sha2::Sha256 as sha2::Digest>::new();
    for part in parts.iter() {
        sha2::Digest::update(&mut hasher, part);
    }
    sha2::Digest::finalize(hasher).to_vec()
}

/// The content id of data read in chunks (a file read piece by piece, or a
/// download as its chunks arrived): the id of all the chunks laid end to
/// end.
pub fn content_id_of_parts(parts: &Vec<Vec<u8>>) -> (id: String)
    ensures
        id@ == content_id(concat_parts(parts_view(parts@))),
        file_id_shape(id@),
{
    let digest = sha256_digest_of_parts(parts);
    proof {
        lemma_hex_bytes_len(digest@);
        lemma_hex_bytes_shape(digest@);
    }
    to_hex(digest.as_slice())
}

} // verus!

verus! {

// ---------------------------------------------------------------------------
// FNV-1a
// ---------------------------------------------------------------------------

pub open spec fn fnv_offset() -> u64 {
    0xcbf29ce484222325u64
}

/// One FNV-1a round: xor the byte in, multiply by the FNV prime modulo 2^64.
pub open spec fn fnv_step(h: u64, b: u8) -> u64 {
    (h ^ (b as u64)).wrapping_mul(0x100000001b3u64)
}

/// FNV-1a rounds over `b`, starting from `h`.
pub open spec fn fnv_from(h: u64, b: Seq<u8>) -> u64
    decreases b.len(),
{
    if b.len() == 0 {
        h
    } else {
        fnv_step(fnv_from(h, b.drop_last()), b.last())
    }
}

/// The 64-bit FNV-1a hash of a byte string.
pub open spec fn fnv(b: Seq<u8>) -> u64 {
    fnv_from(fnv_offset(), b)
}

pub proof fn lemma_fnv_from_concat(h: u64, a: Seq<u8>, b: Seq<u8>)
    ensures
        fnv_from(h, a + b) == fnv_from(fnv_from(h, a), b),
    decreases b.len(),
{
    if b.len() == 0 {
        assert(a + b =~= a);
    } else {
        lemma_fnv_from_concat(h, a, b.drop_last());
        assert((a + b).drop_last() =~= a + b.drop_last());
    }
}

fn fnv_continue(h: u64, bytes: &[u8]) -> (r: u64)
    ensures
        r == fnv_from(h, bytes@),
{
    let mut acc = h;
    let mut i: usize = 0;
    while i < bytes.len()
        invariant
            i <= bytes.len(),
            acc == fnv_from(h, bytes@.take(i as int)),
        decreases bytes.len() - i,
    {
        assert(bytes@.take(i + 1).drop_last() =~= bytes@.take(i as int));
        acc = (acc ^ (bytes[i] as u64)).wrapping_mul(0x100000001b3u64);
        i = i + 1;
    }
    assert(bytes@.take(bytes.len() as int) =~= bytes@);
    acc
}

/// FNV-1a over a byte string: enough for local repeat detection
/// (clipboard signatures, history directory keys).
pub fn fnv1a(bytes: &[u8]) -> (h: u64)
    ensures
        h == fnv(bytes@),
{
    fnv_continue(0xcbf29ce484222325u64, bytes)
}

// ---------------------------------------------------------------------------
// Rich-text signature
// ---------------------------------------------------------------------------

/// A captured rich-text clipboard payload.
#[derive(Clone, Debug)]
pub struct RichText {
    pub text: String,
    pub html: Option<String>,
    pub rtf: Option<String>,
}

/// The transport wrapper arboard puts around HTML on macOS.
pub open spec fn mac_html_prefix() -> Seq<char> {
    "<html><head><meta http-equiv=\"content-type\" content=\"text/html; charset=utf-8\"></head><body>"@
}

pub open spec fn mac_html_suffix() -> Seq<char> {
    "</body></html>"@
}

/// The HTML with the macOS wrapper removed when it carries both halves of it,
/// and unchanged otherwise.
pub open spec fn strip_mac_html(h: Seq<char>) -> Seq<char> {
    let p = mac_html_prefix();
    let s = mac_html_suffix();
    if p.len() + s.len() <= h.len() && h.subrange(0, p.len() as int) == p && h.subrange(
        h.len() - s.len(),
        h.len() as int,
    ) == s {
        h.subrange(p.len() as int, h.len() - s.len())
    } else {
        h
    }
}

pub open spec fn opt_chars(o: Option<String>) -> Seq<char> {
    match o {
        Some(s) => s@,
        None => Seq::empty(),
    }
}

/// The bytes the signature hashes: text, HTML (unwrapped) and RTF, each
/// followed by a NUL byte.
pub open spec fn rich_text_bytes(text: Seq<char>, html: Seq<char>, rtf: Seq<char>) -> Seq<u8> {
    encode_utf8(text) + seq![0u8] + encode_utf8(strip_mac_html(html)) + seq![0u8] + encode_utf8(rtf)
        + seq![0u8]
}

/// The signature of a rich-text payload, as sixteen hex digits.
pub open spec fn rich_text_signature_of(text: Seq<char>, html: Seq<char>, rtf: Seq<char>) -> Seq<char> {
    hex_fixed(fnv(rich_text_bytes(text, html, rtf)) as nat, 16)
}

fn strip_mac_html_exec(html: &str) -> (r: String)
    ensures
        r@ == strip_mac_html(html@),
{
    let h = chars_of(html);
    let p = chars_of("<html><head><meta http-equiv=\"content-type\" content=\"text/html; charset=utf-8\"></head><body>");
    let s = chars_of("</body></html>");
    if p.len() <= h.len() && s.len() <= h.len() - p.len() {
        let tail = h.len() - s.len();
        if matches_at(h.as_slice(), 0, p.as_slice()) && matches_at(h.as_slice(), tail, s.as_slice()) {
            return slice_string(h.as_slice(), p.len(), tail);
        }
    }
    owned(html)
}

fn push_bytes(v: &mut Vec<u8>, b: &[u8])
    ensures
        final(v)@ == old(v)@ + b@,
{
    let mut i: usize = 0;
    while i < b.len()
        invariant
            i <= b.len(),
            v@ == old(v)@ + b@.take(i as int),
        decreases b.len() - i,
    {
        v.push(b[i]);
        assert(b@.take(i + 1) =~= b@.take(i as int).push(b@[i as int]));
        assert(v@ =~= old(v)@ + b@.take(i + 1));
        i = i + 1;
    }
    assert(b@.take(b.len() as int) =~= b@);
}

/// The local repeat-detection signature of a rich-text payload.
/// The macOS HTML transport wrapper is treated as
/// the fragment it wraps, so a paste is not captured back as a new item.
pub fn rich_text_signature(rich_text: &RichText) -> (sig: String)
    ensures
        sig@ == rich_text_signature_of(rich_text.text@, opt_chars(rich_text.html), opt_chars(rich_text.rtf)),
{
    let html = match &rich_text.html {
        Some(h) => strip_mac_html_exec(h.as_str()),
        None => String::new(),
    };
    let rtf = match &rich_text.rtf {
        Some(r) => owned(r.as_str()),
        None => String::new(),
    };
    proof {
        assert(opt_chars(rich_text.html) == Seq::<char>::empty() ==> strip_mac_html(Seq::<char>::empty()) =~= Seq::<char>::empty());
    }
    let mut bytes: Vec<u8> = Vec::new();
    push_bytes(&mut bytes, rich_text.text.as_str().as_bytes());
    bytes.push(0u8);
    push_bytes(&mut bytes, html.as_str().as_bytes());
    bytes.push(0u8);
    push_bytes(&mut bytes, rtf.as_str().as_bytes());
    bytes.push(0u8);
    assert(bytes@ =~= rich_text_bytes(rich_text.text@, opt_chars(rich_text.html), opt_chars(rich_text.rtf)));
    hex16(fnv1a(bytes.as_slice()))
}

/// Wrapping an HTML fragment in the macOS transport wrapper leaves the
/// signature unchanged, unless the fragment itself already carries the whole
/// wrapper.
pub proof fn law_mac_wrapper_keeps_signature(text: Seq<char>, fragment: Seq<char>, rtf: Seq<char>)
    requires
        strip_mac_html(fragment) == fragment,
    ensures
        rich_text_signature_of(text, mac_html_prefix() + fragment + mac_html_suffix(), rtf)
            == rich_text_signature_of(text, fragment, rtf),
{
    let w = mac_html_prefix() + fragment + mac_html_suffix();
    let p = mac_html_prefix();
    let s = mac_html_suffix();
    assert(w.subrange(0, p.len() as int) =~= p);
    assert(w.subrange(w.len() - s.len(), w.len() as int) =~= s);
    assert(w.subrange(p.len() as int, w.len() - s.len()) =~= fragment);
}

// ---------------------------------------------------------------------------
// Entry identity
// ---------------------------------------------------------------------------

/// The identity of an entry captured on a device: the hex sha256 of the
/// content's bytes, a NUL byte and the device id's bytes.
pub open spec fn entry_id_of(content: Seq<char>, device_id: Seq<char>) -> Seq<char> {
    content_id(encode_utf8(content) + seq![0u8] + encode_utf8(device_id))
}

/// The identity of an entry captured on a device.
pub fn entry_id(content: &str, device_id: &str) -> (id: String)
    ensures
        id@ == entry_id_of(content@, device_id@),
        file_id_shape(id@),
{
    let mut bytes: Vec<u8> = Vec::new();
    push_bytes(&mut bytes, content.as_bytes());
    bytes.push(0u8);
    push_bytes(&mut bytes, device_id.as_bytes());
    assert(bytes@ =~= encode_utf8(content@) + seq![0u8] + encode_utf8(device_id@));
    hash_bytes(bytes.as_slice())
}

} // verus!
