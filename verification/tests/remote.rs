use cliproam::entry::{ClipboardEntry, EntrySummary, ImageInfo, LocalSources};
use cliproam::remote::{available_contents, oldest_first};
use cliproam::tree::TreeNode;

fn strings(v: &[&str]) -> Vec<String> {
    v.iter().map(|s| s.to_string()).collect()
}

fn files_entry(ids: &[&str]) -> ClipboardEntry {
    ClipboardEntry {
        id: "e".to_string(),
        kind: "files".to_string(),
        content: String::new(),
        html: None,
        rtf: None,
        file_info: Some(
            ids.iter()
                .enumerate()
                .map(|(i, id)| (format!("f{i}"), TreeNode::File { f: id.to_string(), s: 1 }))
                .collect(),
        ),
        image_info: None,
        source_device_id: "d".to_string(),
        created_at: "now".to_string(),
        summary: EntrySummary::default(),
        sources: LocalSources::default(),
    }
}

fn image_entry(id: &str) -> ClipboardEntry {
    let mut entry = files_entry(&[]);
    entry.kind = "image".to_string();
    entry.file_info = None;
    entry.image_info = Some(ImageInfo { file_id: id.to_string(), size: 9, thumbnail: String::new() });
    entry
}

#[test]
fn remote_entries_are_written_oldest_first_and_ties_keep_their_order() {
    let created = strings(&[
        "2026-01-02T00:00:00.000Z",
        "2026-01-01T00:00:00.000Z",
        "2026-01-02T00:00:00.000Z",
        "2025-12-31T23:59:59.999Z",
    ]);
    assert_eq!(oldest_first(&created), vec![3, 1, 0, 2]);
    assert_eq!(oldest_first(&Vec::new()), Vec::<usize>::new());
    assert_eq!(oldest_first(&strings(&["b", "a", "b", "a"])), vec![1, 3, 0, 2]);
}

#[test]
fn only_contents_the_pool_holds_are_marked_once() {
    let entries = vec![files_entry(&["a", "b", "a"]), image_entry("c"), files_entry(&["b", "d"])];
    let available = strings(&["d", "b", "z"]);
    assert_eq!(available_contents(&entries, &available), strings(&["b", "d"]));
    assert!(available_contents(&entries, &Vec::new()).is_empty());
}

use cliproam::descriptor::{stream_read_step, StreamRead};
use cliproam::downloads::VirtualDownloadStatus;

fn status(complete: bool, error: Option<&str>) -> VirtualDownloadStatus {
    VirtualDownloadStatus { requested: true, complete, error: error.map(str::to_string) }
}

#[test]
fn virtual_file_reads_wait_for_the_bytes_they_need() {
    assert!(matches!(stream_read_step(true, None, 0, 10, None), StreamRead::FromCopy));
    assert!(matches!(stream_read_step(false, Some(100), 40, 10, None), StreamRead::FromArrived(10)));
    assert!(matches!(stream_read_step(false, Some(45), 40, 10, None), StreamRead::FromArrived(5)));
    assert!(matches!(stream_read_step(false, Some(40), 40, 10, None), StreamRead::Wait));
    assert!(matches!(stream_read_step(false, None, 0, 10, Some(&status(false, None))), StreamRead::Wait));
    assert!(matches!(stream_read_step(false, Some(40), 40, 10, Some(&status(true, None))), StreamRead::End));
    match stream_read_step(false, None, 0, 10, Some(&status(true, Some("断开")))) {
        StreamRead::Fail(error) => assert_eq!(error, "断开"),
        _ => panic!("a failed transfer ends the read"),
    }
}
