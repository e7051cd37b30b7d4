//! Capture decisions: which clipboard changes are new, the signatures that
//! tell a repeat from a new copy, and the texts a capture writes.

use vstd::prelude::*;
use crate::text::{
    append_char, append_str, ascii_lower, chars_of, decimal, decimal_string, lower_ascii, owned,
    string_from_chars, trim, trimmed,
};

verus! {

// ---------------------------------------------------------------------------
// The last-capture signatures
// ---------------------------------------------------------------------------

/// The signatures of the last capture of each kind. At most one is set: a
/// capture of one kind forgets the others, so copying A, then B, then A
/// again records A twice.
pub struct CaptureSignatures {
    pub last_clipboard: String,
    pub last_file_signature: String,
    pub last_image_signature: String,
}

/// The signatures taken by value: text, files, image.
pub type SignaturesView = (Seq<char>, Seq<char>, Seq<char>);

pub open spec fn signatures_view(s: CaptureSignatures) -> SignaturesView {
    (s.last_clipboard@, s.last_file_signature@, s.last_image_signature@)
}

/// The kind of a capture.
#[derive(PartialEq, Eq, Structural, Clone, Copy, Debug)]
pub enum CaptureKind {
    Text,
    Files,
    Image,
}

/// The signature recorded for `kind`.
pub open spec fn last_of(s: SignaturesView, kind: CaptureKind) -> Seq<char> {
    match kind {
        CaptureKind::Text => s.0,
        CaptureKind::Files => s.1,
        CaptureKind::Image => s.2,
    }
}

/// Whether a capture of `kind` with `signature` is new: it differs from the
/// last one of its kind.
pub open spec fn is_new_capture(s: SignaturesView, kind: CaptureKind, signature: Seq<char>) -> bool {
    last_of(s, kind) != signature
}

/// The signatures after recording a capture: its own kind holds the new
/// signature and the other two are cleared.
pub open spec fn recorded(kind: CaptureKind, signature: Seq<char>) -> SignaturesView {
    match kind {
        CaptureKind::Text => (signature, Seq::empty(), Seq::empty()),
        CaptureKind::Files => (Seq::empty(), signature, Seq::empty()),
        CaptureKind::Image => (Seq::empty(), Seq::empty(), signature),
    }
}

/// The signatures after a capture is offered: recorded when new, unchanged
/// when a repeat.
pub open spec fn after_capture(s: SignaturesView, kind: CaptureKind, signature: Seq<char>) -> SignaturesView {
    if is_new_capture(s, kind, signature) {
        recorded(kind, signature)
    } else {
        s
    }
}

impl CaptureSignatures {
    /// No capture yet.
    pub fn new() -> (r: Self)
        ensures
            signatures_view(r) == (Seq::<char>::empty(), Seq::<char>::empty(), Seq::<char>::empty()),
    {
        CaptureSignatures { last_clipboard: String::new(), last_file_signature: String::new(), last_image_signature: String::new() }
    }

    /// Offers a capture. A repeat of the last capture of its kind is refused
    /// with `None` and changes nothing; a new one is recorded, the other kinds
    /// are forgotten, and the signatures held before are handed back so a
    /// failed write can put them back.
    pub fn record(&mut self, kind: CaptureKind, signature: &str) -> (previous: Option<CaptureSignatures>)
        ensures
            signatures_view(*final(self)) == after_capture(signatures_view(*old(self)), kind, signature@),
            previous is Some <==> is_new_capture(signatures_view(*old(self)), kind, signature@),
            previous matches Some(p) ==> signatures_view(p) == signatures_view(*old(self)),
    {
        let last = match kind {
            CaptureKind::Text => chars_of(self.last_clipboard.as_str()),
            CaptureKind::Files => chars_of(self.last_file_signature.as_str()),
            CaptureKind::Image => chars_of(self.last_image_signature.as_str()),
        };
        let sig = chars_of(signature);
        if same_chars(last.as_slice(), sig.as_slice()) {
            return None;
        }
        let previous = CaptureSignatures {
            last_clipboard: owned(self.last_clipboard.as_str()),
            last_file_signature: owned(self.last_file_signature.as_str()),
            last_image_signature: owned(self.last_image_signature.as_str()),
        };
        self.last_clipboard = String::new();
        self.last_file_signature = String::new();
        self.last_image_signature = String::new();
        match kind {
            CaptureKind::Text => {
                self.last_clipboard = owned(signature);
            },
            CaptureKind::Files => {
                self.last_file_signature = owned(signature);
            },
            CaptureKind::Image => {
                self.last_image_signature = owned(signature);
            },
        }
        Some(previous)
    }

    /// Notes what was just written to the clipboard so the monitor does not
    /// capture it back: the written kind
    /// keeps its signature and the other two are cleared, so a payload of a
    /// different kind is still captured.
    pub fn record_written(&mut self, kind: CaptureKind, signature: &str)
        ensures
            signatures_view(*final(self)) == recorded(kind, signature@),
    {
        self.last_clipboard = String::new();
        self.last_file_signature = String::new();
        self.last_image_signature = String::new();
        match kind {
            CaptureKind::Text => {
                self.last_clipboard = owned(signature);
            },
            CaptureKind::Files => {
                self.last_file_signature = owned(signature);
            },
            CaptureKind::Image => {
                self.last_image_signature = owned(signature);
            },
        }
    }

    /// Forgets all three signatures, as writing virtual files does: they
    /// have no signature to suppress.
    pub fn forget(&mut self)
        ensures
            signatures_view(*final(self)) == (Seq::<char>::empty(), Seq::<char>::empty(), Seq::<char>::empty()),
    {
        self.last_clipboard = String::new();
        self.last_file_signature = String::new();
        self.last_image_signature = String::new();
    }

    /// Puts back signatures handed out by `record` after the write they
    /// guarded failed.
    pub fn restore(&mut self, previous: CaptureSignatures)
        ensures
            signatures_view(*final(self)) == signatures_view(previous),
    {
        *self = previous;
    }
}

/// Whether two character sequences are equal.
pub fn same_chars(a: &[char], b: &[char]) -> (r: bool)
    ensures
        r == (a@ == b@),
{
    if a.len() != b.len() {
        return false;
    }
    let mut i: usize = 0;
    while i < a.len()
        invariant
            i <= a.len(),
            a.len() == b.len(),
            a@.take(i as int) == b@.take(i as int),
        decreases a.len() - i,
    {
        if a[i] != b[i] {
            return false;
        }
        assert(a@.take(i + 1) =~= a@.take(i as int).push(a@[i as int]));
        assert(b@.take(i + 1) =~= b@.take(i as int).push(b@[i as int]));
        i = i + 1;
    }
    assert(a@.take(a.len() as int) =~= a@);
    assert(b@.take(b.len() as int) =~= b@);
    true
}

/// Copying the same thing twice records it once: right after a capture is
/// offered, offering it again is a repeat.
pub proof fn law_repeat_is_recorded_once(s: SignaturesView, kind: CaptureKind, signature: Seq<char>)
    ensures
        !is_new_capture(after_capture(s, kind, signature), kind, signature),
        after_capture(after_capture(s, kind, signature), kind, signature) == after_capture(s, kind, signature),
{
}

/// A capture of another kind in between makes the same copy new again, as
/// long as its own signature is not empty.
pub proof fn law_other_kind_in_between_makes_a_copy_new(
    s: SignaturesView,
    kind: CaptureKind,
    signature: Seq<char>,
    other: CaptureKind,
    other_signature: Seq<char>,
)
    requires
        kind != other,
        signature.len() > 0,
    ensures
        is_new_capture(
            after_capture(after_capture(s, kind, signature), other, other_signature),
            kind,
            signature,
        ) <==> is_new_capture(after_capture(s, kind, signature), other, other_signature),
{
}

/// What this device writes to the clipboard is not captured back, while a
/// copy of a different kind still is.
pub proof fn law_written_payload_is_not_captured_back(
    kind: CaptureKind,
    signature: Seq<char>,
    other: CaptureKind,
    other_signature: Seq<char>,
)
    ensures
        !is_new_capture(recorded(kind, signature), kind, signature),
        kind != other && other_signature.len() > 0 ==> is_new_capture(recorded(kind, signature), other, other_signature),
{
}

// ---------------------------------------------------------------------------
// What a capture records
// ---------------------------------------------------------------------------

/// Text worth capturing has something besides white space.
pub open spec fn is_capturable_text(text: Seq<char>) -> bool {
    trim(text).len() > 0
}

/// Whether copied text is captured at all: blank text is skipped.
pub fn text_is_capturable(text: &str) -> (r: bool)
    ensures
        r == is_capturable_text(text@),
{
    let cs = chars_of(text);
    let t = trimmed(cs.as_slice());
    t.len() > 0
}

/// What the signature of one copied path records: its path, size and
/// modification time in milliseconds.
pub struct FileStat {
    pub path: String,
    pub size: u64,
    pub modified_at: u64,
}

/// `path:size:modified`, the path in ASCII lower case.
pub open spec fn stat_line(path: Seq<char>, size: u64, modified_at: u64) -> Seq<char> {
    ascii_lower(path) + seq![':'] + decimal(size as nat) + seq![':'] + decimal(modified_at as nat)
}

/// The stats taken by value.
pub open spec fn stats_view(v: Seq<FileStat>) -> Seq<(Seq<char>, u64, u64)> {
    Seq::new(v.len(), |i: int| (v[i].path@, v[i].size, v[i].modified_at))
}

/// One line per copied path, in order, separated by newlines.
pub open spec fn file_signature_of(stats: Seq<(Seq<char>, u64, u64)>) -> Seq<char>
    decreases stats.len(),
{
    if stats.len() == 0 {
        Seq::empty()
    } else if stats.len() == 1 {
        stat_line(stats[0].0, stats[0].1, stats[0].2)
    } else {
        file_signature_of(stats.drop_last()) + seq!['\n'] + stat_line(
            stats.last().0,
            stats.last().1,
            stats.last().2,
        )
    }
}

/// The repeat-detection signature of a set of copied paths,
/// from their stats; a path that cannot be read counts
/// as size 0 and time 0.
pub fn file_signature(stats: &[FileStat]) -> (sig: String)
    ensures
        sig@ == file_signature_of(stats_view(stats@)),
{
    let ghost sv = stats_view(stats@);
    let mut sig = String::new();
    let mut i: usize = 0;
    while i < stats.len()
        invariant
            i <= stats.len(),
            sv == stats_view(stats@),
            sig@ == file_signature_of(sv.take(i as int)),
        decreases stats.len() - i,
    {
        if i > 0 {
            append_char(&mut sig, '\n');
        }
        let path = chars_of(stats[i].path.as_str());
        let lower = lower_ascii(path.as_slice());
        let line = string_from_chars(lower.as_slice());
        append_str(&mut sig, line.as_str());
        append_char(&mut sig, ':');
        let size = decimal_string(stats[i].size);
        append_str(&mut sig, size.as_str());
        append_char(&mut sig, ':');
        let modified = decimal_string(stats[i].modified_at);
        append_str(&mut sig, modified.as_str());
        proof {
            assert(sv.take(i + 1).drop_last() =~= sv.take(i as int));
            assert(sv.take(i + 1).last() == sv[i as int]);
            if i == 0 {
                assert(file_signature_of(sv.take(0)) =~= Seq::<char>::empty());
            }
            assert(sig@ =~= file_signature_of(sv.take(i + 1)));
        }
        i = i + 1;
    }
    proof {
        assert(sv.take(stats.len() as int) =~= sv);
    }
    sig
}

/// Every `\` doubled, as JSON writes it.
pub open spec fn json_backslashes(s: Seq<char>) -> Seq<char>
    decreases s.len(),
{
    if s.len() == 0 {
        Seq::empty()
    } else if s.last() == '\\' {
        json_backslashes(s.drop_last()) + seq!['\\', '\\']
    } else {
        json_backslashes(s.drop_last()).push(s.last())
    }
}

/// Every `%`, `_` and `\` preceded by `\`.
pub open spec fn like_escaped(s: Seq<char>) -> Seq<char> {
    crate::sql::escape_like_of(s)
}

/// The `LIKE` pattern that finds a copied root inside the JSON `sources`
/// column (the prefilter for reusing a files entry): the root with its
/// backslashes doubled as JSON writes them, escaped for `LIKE`, anywhere in
/// the text.
pub fn reusable_entry_pattern(root: &str) -> (r: String)
    ensures
        r@ == seq!['%'] + like_escaped(json_backslashes(root@)) + seq!['%'],
{
    let cs = chars_of(root);
    let mut doubled: Vec<char> = Vec::new();
    let mut i: usize = 0;
    while i < cs.len()
        invariant
            i <= cs.len(),
            cs@ == root@,
            doubled@ == json_backslashes(cs@.take(i as int)),
        decreases cs.len() - i,
    {
        assert(cs@.take(i + 1).drop_last() =~= cs@.take(i as int));
        if cs[i] == '\\' {
            doubled.push('\\');
        }
        doubled.push(cs[i]);
        assert(doubled@ =~= json_backslashes(cs@.take(i + 1)));
        i = i + 1;
    }
    assert(cs@.take(cs.len() as int) =~= cs@);
    let json = string_from_chars(doubled.as_slice());
    let escaped = crate::sql::escape_like(json.as_str());
    let mut r = String::new();
    append_char(&mut r, '%');
    append_str(&mut r, escaped.as_str());
    append_char(&mut r, '%');
    r
}

/// The list text of a screenshot: `截图（W × H）`.
pub open spec fn screenshot_label_of(width: u32, height: u32) -> Seq<char> {
    "截图（"@ + decimal(width as nat) + " × "@ + decimal(height as nat) + "）"@
}

/// The list text of a captured screenshot, from its pixel size.
pub fn screenshot_label(width: u32, height: u32) -> (r: String)
    ensures
        r@ == screenshot_label_of(width, height),
{
    let mut r = owned("截图（");
    let w = decimal_string(width as u64);
    append_str(&mut r, w.as_str());
    append_str(&mut r, " × ");
    let h = decimal_string(height as u64);
    append_str(&mut r, h.as_str());
    append_str(&mut r, "）");
    r
}

} // verus!
