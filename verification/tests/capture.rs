use cliproam::capture::{
    file_signature, reusable_entry_pattern, same_chars, screenshot_label, text_is_capturable, CaptureKind,
    CaptureSignatures, FileStat,
};

#[test]
fn a_repeated_copy_is_recorded_once() {
    let mut signatures = CaptureSignatures::new();
    let previous = signatures.record(CaptureKind::Text, "abc").expect("first copy is new");
    assert_eq!(previous.last_clipboard, "");
    assert_eq!(signatures.last_clipboard, "abc");
    assert!(signatures.record(CaptureKind::Text, "abc").is_none());
    assert_eq!(signatures.last_clipboard, "abc");
}

#[test]
fn another_kind_in_between_makes_the_copy_new_again() {
    let mut signatures = CaptureSignatures::new();
    assert!(signatures.record(CaptureKind::Text, "abc").is_some());
    let previous = signatures.record(CaptureKind::Image, "img").expect("image is new");
    assert_eq!(previous.last_clipboard, "abc");
    assert_eq!(signatures.last_clipboard, "");
    assert_eq!(signatures.last_image_signature, "img");
    assert!(signatures.record(CaptureKind::Text, "abc").is_some());
    assert_eq!(signatures.last_image_signature, "");
    assert!(signatures.record(CaptureKind::Files, "d:/x:1:2").is_some());
    assert_eq!((signatures.last_clipboard.as_str(), signatures.last_file_signature.as_str()), ("", "d:/x:1:2"));
}

#[test]
fn a_failed_write_puts_the_signatures_back() {
    let mut signatures = CaptureSignatures::new();
    assert!(signatures.record(CaptureKind::Files, "files").is_some());
    let previous = signatures.record(CaptureKind::Text, "text").unwrap();
    signatures.restore(previous);
    assert_eq!(signatures.last_file_signature, "files");
    assert_eq!(signatures.last_clipboard, "");
    assert!(signatures.record(CaptureKind::Files, "files").is_none());
}

#[test]
fn blank_text_is_not_captured() {
    assert!(!text_is_capturable(""));
    assert!(!text_is_capturable(" \t\r\n "));
    assert!(text_is_capturable("  a "));
}

#[test]
fn file_signatures_list_lower_case_paths_with_size_and_time() {
    let stats = vec![
        FileStat { path: "D:/Docs/Readme.MD".to_string(), size: 12, modified_at: 1700000000000 },
        FileStat { path: "C:/Ünïcode".to_string(), size: 0, modified_at: 0 },
    ];
    assert_eq!(file_signature(&stats), "d:/docs/readme.md:12:1700000000000\nc:/Ünïcode:0:0");
    assert_eq!(file_signature(&[]), "");
}

#[test]
fn reusable_entry_patterns_double_backslashes_and_escape_wildcards() {
    assert_eq!(reusable_entry_pattern("C:\\data_1"), "%C:\\\\\\\\data\\_1%");
    assert_eq!(reusable_entry_pattern("/home/a%b"), "%/home/a\\%b%");
}

#[test]
fn screenshots_are_labelled_with_their_size() {
    assert_eq!(screenshot_label(1920, 1080), "截图（1920 × 1080）");
}

#[test]
fn character_sequences_compare_by_content() {
    assert!(same_chars(&['a', 'b'], &['a', 'b']));
    assert!(!same_chars(&['a'], &['a', 'b']));
    assert!(!same_chars(&['a', 'c'], &['a', 'b']));
}

use cliproam::entry::{ClipboardEntry, EntrySummary, LocalSources};
use cliproam::misc::{activation_payload, paste_payload, PastePayload};
use cliproam::tree::TreeNode;

fn entry_of(kind: &str, file_info: Option<Vec<(String, TreeNode)>>, roots: Vec<String>) -> ClipboardEntry {
    ClipboardEntry {
        id: "e".to_string(),
        kind: kind.to_string(),
        content: String::new(),
        html: None,
        rtf: None,
        file_info,
        image_info: None,
        source_device_id: "d".to_string(),
        created_at: "now".to_string(),
        summary: EntrySummary::default(),
        sources: LocalSources { roots, files: Vec::new() },
    }
}

#[test]
fn files_paste_from_their_roots_when_they_are_intact() {
    let map = || Some(vec![("docs".to_string(), TreeNode::Dir(Vec::new()))]);
    let intact = entry_of("files", map(), vec!["D:/docs".to_string()]);
    assert_eq!(paste_payload(&intact, true, true), Ok(PastePayload::CopiedRoots));
    assert_eq!(paste_payload(&intact, false, true), Ok(PastePayload::VirtualFiles));
    assert_eq!(paste_payload(&intact, false, false), Ok(PastePayload::RebuiltPaths));
    let remote = entry_of("files", map(), Vec::new());
    assert_eq!(paste_payload(&remote, true, false), Ok(PastePayload::RebuiltPaths));
    let mismatched = entry_of("files", map(), vec!["a".to_string(), "b".to_string()]);
    assert_eq!(paste_payload(&mismatched, true, true), Ok(PastePayload::VirtualFiles));
    let empty = entry_of("files", None, Vec::new());
    assert_eq!(paste_payload(&empty, true, true), Err("该记录不包含文件".to_string()));
    assert_eq!(paste_payload(&entry_of("image", None, Vec::new()), false, false), Ok(PastePayload::Image));
    assert_eq!(paste_payload(&entry_of("text", None, Vec::new()), false, false), Ok(PastePayload::Text));
}

#[test]
fn remote_activations_never_write_files() {
    assert_eq!(activation_payload("files"), Err("文件和文件夹不会自动写入漫游剪贴板".to_string()));
    assert_eq!(activation_payload("image"), Ok(PastePayload::Image));
    assert_eq!(activation_payload("text"), Ok(PastePayload::Text));
}

#[test]
fn what_was_written_is_not_captured_back() {
    let mut signatures = CaptureSignatures::new();
    signatures.record_written(CaptureKind::Image, "img");
    assert!(signatures.record(CaptureKind::Image, "img").is_none());
    assert!(signatures.record(CaptureKind::Text, "txt").is_some());
    signatures.forget();
    assert_eq!(signatures.last_clipboard, "");
    assert!(signatures.record(CaptureKind::Text, "txt").is_some());
}

use cliproam::metadata::HistoryMetadata;

fn metadata(text: &str, device: &str) -> HistoryMetadata {
    let mut signatures = CaptureSignatures::new();
    signatures.record_written(CaptureKind::Text, text);
    HistoryMetadata { signatures, device_id: device.to_string(), device_name: "Desk".to_string() }
}

#[test]
fn saved_metadata_reads_back() {
    let saved = metadata("sig", "device-1");
    let rows = saved.rows();
    assert_eq!(
        rows.iter().map(|(k, _)| k.as_str()).collect::<Vec<_>>(),
        vec!["last_clipboard", "last_file_signature", "last_image_signature", "device_id", "device_name"]
    );
    let mut loaded = metadata("old", "device-0");
    loaded.signatures.record_written(CaptureKind::Image, "old-image");
    loaded.apply_all(&rows);
    assert_eq!(loaded.signatures.last_clipboard, "sig");
    assert_eq!(loaded.signatures.last_image_signature, "");
    assert_eq!((loaded.device_id.as_str(), loaded.device_name.as_str()), ("device-1", "Desk"));
}

#[test]
fn unknown_metadata_keys_are_ignored() {
    let mut loaded = metadata("sig", "device-1");
    loaded.apply("pending_deletions", "[]");
    loaded.apply("device", "x");
    assert_eq!(loaded.signatures.last_clipboard, "sig");
    assert_eq!(loaded.device_id, "device-1");
    loaded.apply("device_name", "Laptop");
    assert_eq!(loaded.device_name, "Laptop");
}
