//! The history-level metadata kept beside the entries: the last-capture
//! signatures and the device identity, written as key/value rows and read
//! back from them.

use vstd::prelude::*;
use crate::capture::{signatures_view, CaptureSignatures};
use crate::text::owned;

verus! {

/// The persisted part of a history: the rows of its `metadata` table.
pub struct HistoryMetadata {
    pub signatures: CaptureSignatures,
    pub device_id: String,
    pub device_name: String,
}

/// The metadata taken by value: the three signatures (text, files, image),
/// then the device id and name.
pub type MetadataView = (Seq<char>, Seq<char>, Seq<char>, Seq<char>, Seq<char>);

pub open spec fn metadata_view(m: HistoryMetadata) -> MetadataView {
    let s = signatures_view(m.signatures);
    (s.0, s.1, s.2, m.device_id@, m.device_name@)
}

/// A row taken by value: key and value.
pub type RowView = (Seq<char>, Seq<char>);

pub open spec fn rows_view(rows: Seq<(String, String)>) -> Seq<RowView> {
    Seq::new(rows.len(), |i: int| (rows[i].0@, rows[i].1@))
}

/// The rows that hold the metadata, in the order they are written.
pub open spec fn metadata_rows(m: MetadataView) -> Seq<RowView> {
    seq![
        ("last_clipboard"@, m.0),
        ("last_file_signature"@, m.1),
        ("last_image_signature"@, m.2),
        ("device_id"@, m.3),
        ("device_name"@, m.4),
    ]
}

/// The metadata after reading one row: a known key sets its field, any
/// other key is ignored.
pub open spec fn apply_row(m: MetadataView, row: RowView) -> MetadataView {
    let (key, value) = row;
    if key == "last_clipboard"@ {
        (value, m.1, m.2, m.3, m.4)
    } else if key == "last_file_signature"@ {
        (m.0, value, m.2, m.3, m.4)
    } else if key == "last_image_signature"@ {
        (m.0, m.1, value, m.3, m.4)
    } else if key == "device_id"@ {
        (m.0, m.1, m.2, value, m.4)
    } else if key == "device_name"@ {
        (m.0, m.1, m.2, m.3, value)
    } else {
        m
    }
}

/// The metadata after reading rows in order.
pub open spec fn apply_rows(m: MetadataView, rows: Seq<RowView>) -> MetadataView
    decreases rows.len(),
{
    if rows.len() == 0 {
        m
    } else {
        apply_row(apply_rows(m, rows.drop_last()), rows.last())
    }
}

impl HistoryMetadata {
    /// The `metadata` rows this metadata is saved as.
    pub fn rows(&self) -> (r: Vec<(String, String)>)
        ensures
            rows_view(r@) == metadata_rows(metadata_view(*self)),
    {
        let mut r: Vec<(String, String)> = Vec::new();
        r.push((owned("last_clipboard"), owned(self.signatures.last_clipboard.as_str())));
        r.push((owned("last_file_signature"), owned(self.signatures.last_file_signature.as_str())));
        r.push((owned("last_image_signature"), owned(self.signatures.last_image_signature.as_str())));
        r.push((owned("device_id"), owned(self.device_id.as_str())));
        r.push((owned("device_name"), owned(self.device_name.as_str())));
        assert(rows_view(r@) =~= metadata_rows(metadata_view(*self)));
        r
    }

    /// Reads one `metadata` row back.
    pub fn apply(&mut self, key: &str, value: &str)
        ensures
            metadata_view(*final(self)) == apply_row(metadata_view(*old(self)), (key@, value@)),
    {
        let k = owned(key);
        let last_clipboard = owned("last_clipboard");
        let last_file_signature = owned("last_file_signature");
        let last_image_signature = owned("last_image_signature");
        let device_id = owned("device_id");
        let device_name = owned("device_name");
        if k == last_clipboard {
            self.signatures.last_clipboard = owned(value);
        } else if k == last_file_signature {
            self.signatures.last_file_signature = owned(value);
        } else if k == last_image_signature {
            self.signatures.last_image_signature = owned(value);
        } else if k == device_id {
            self.device_id = owned(value);
        } else if k == device_name {
            self.device_name = owned(value);
        }
    }

    /// Reads metadata rows in order.
    pub fn apply_all(&mut self, rows: &[(String, String)])
        ensures
            metadata_view(*final(self)) == apply_rows(metadata_view(*old(self)), rows_view(rows@)),
    {
        let ghost start = metadata_view(*self);
        let mut i: usize = 0;
        while i < rows.len()
            invariant
                i <= rows.len(),
                metadata_view(*self) == apply_rows(start, rows_view(rows@).take(i as int)),
            decreases rows.len() - i,
        {
            self.apply(rows[i].0.as_str(), rows[i].1.as_str());
            assert(rows_view(rows@).take(i + 1).drop_last() =~= rows_view(rows@).take(i as int));
            i = i + 1;
        }
        assert(rows_view(rows@).take(rows.len() as int) =~= rows_view(rows@));
    }
}

/// Reading back the rows the metadata was saved as gives the same metadata,
/// whatever was there before.
pub proof fn law_saved_metadata_reads_back(before: MetadataView, saved: MetadataView)
    ensures
        apply_rows(before, metadata_rows(saved)) == saved,
{
    reveal_strlit("last_clipboard");
    reveal_strlit("last_file_signature");
    reveal_strlit("last_image_signature");
    reveal_strlit("device_id");
    reveal_strlit("device_name");
    assert("last_file_signature"@.len() != "last_clipboard"@.len());
    assert("last_image_signature"@.len() != "last_clipboard"@.len());
    assert("last_image_signature"@[5] != "last_file_signature"@[5]);
    assert("device_name"@.len() != "device_id"@.len());
    assert("device_name"@[0] != "last_clipboard"@[0]);
    assert("device_name"@.len() != "last_file_signature"@.len());
    assert("device_name"@.len() != "last_image_signature"@.len());
    let rows = metadata_rows(saved);
    assert(rows.take(0) =~= Seq::<RowView>::empty());
    assert(rows.take(1).drop_last() =~= rows.take(0));
    assert(rows.take(2).drop_last() =~= rows.take(1));
    assert(rows.take(3).drop_last() =~= rows.take(2));
    assert(rows.take(4).drop_last() =~= rows.take(3));
    assert(rows.take(5).drop_last() =~= rows.take(4));
    assert(rows.take(5) =~= rows);
    assert(apply_rows(before, rows.take(0)) == before);
    assert(rows.take(1).last() == rows[0]);
    assert(rows.take(2).last() == rows[1]);
    assert(rows.take(3).last() == rows[2]);
    assert(rows.take(4).last() == rows[3]);
    assert(rows.take(5).last() == rows[4]);
    let m1 = apply_rows(before, rows.take(1));
    assert(m1 == (saved.0, before.1, before.2, before.3, before.4));
    let m2 = apply_rows(before, rows.take(2));
    assert(m2 == (saved.0, saved.1, before.2, before.3, before.4));
    let m3 = apply_rows(before, rows.take(3));
    assert(m3 == (saved.0, saved.1, saved.2, before.3, before.4));
    let m4 = apply_rows(before, rows.take(4));
    assert(m4 == (saved.0, saved.1, saved.2, saved.3, before.4));
    assert(apply_rows(before, rows.take(5)) == saved);
}

/// Rows under other keys leave the metadata as it was.
pub proof fn law_unknown_keys_are_ignored(m: MetadataView, key: Seq<char>, value: Seq<char>)
    requires
        key != "last_clipboard"@,
        key != "last_file_signature"@,
        key != "last_image_signature"@,
        key != "device_id"@,
        key != "device_name"@,
    ensures
        apply_row(m, (key, value)) == m,
{
}

} // verus!
