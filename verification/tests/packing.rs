use cliproam::entry::LocalSource;
use cliproam::hashing::hash_bytes;
use cliproam::identity::ClipboardFile;
use cliproam::packing::{
    pack_candidates, rewrite_pack_nodes, PACK_MAX_CONTENT_SIZE, PACK_MIN_CONTENTS, PACK_TREE_FILE_THRESHOLD,
};

fn source(path: &str, id: Option<String>, size: u64) -> LocalSource {
    LocalSource {
        path: path.to_string(),
        source: format!("D:/{path}"),
        size,
        modified_at: None,
        file_id: id,
    }
}

fn small_sources(count: usize) -> Vec<LocalSource> {
    (0..count)
        .map(|index| source(&format!("file-{index}"), Some(hash_bytes(format!("file-{index}").as_bytes())), 10))
        .collect()
}

#[test]
fn small_maps_and_packed_maps_are_left_alone() {
    let sources = small_sources(200);
    assert!(pack_candidates(PACK_TREE_FILE_THRESHOLD - 1, false, &sources).is_none());
    assert!(pack_candidates(PACK_TREE_FILE_THRESHOLD, true, &sources).is_none());
    assert!(pack_candidates(PACK_TREE_FILE_THRESHOLD, false, &sources).is_some());
}

#[test]
fn too_few_small_contents_are_not_packed() {
    let mut sources = small_sources(PACK_MIN_CONTENTS - 1);
    // Large, unhashed and repeated contents do not count.
    sources.push(source("big", Some(hash_bytes(b"big")), PACK_MAX_CONTENT_SIZE + 1));
    sources.push(source("unhashed", None, 1));
    sources.push(source("again", Some(hash_bytes(b"file-0")), 10));
    assert!(pack_candidates(500, false, &sources).is_none());
    sources.push(source("last", Some(hash_bytes(b"last")), PACK_MAX_CONTENT_SIZE));
    assert_eq!(pack_candidates(500, false, &sources).map(|v| v.len()), Some(PACK_MIN_CONTENTS));
}

#[test]
fn candidates_are_sorted_by_id_and_keep_the_first_source() {
    let mut sources = small_sources(150);
    sources.insert(0, source("first-copy", Some(hash_bytes(b"file-7")), 10));
    let candidates = pack_candidates(300, false, &sources).unwrap();
    assert_eq!(candidates.len(), 150);
    let ids: Vec<&str> = candidates.iter().map(|c| c.file_id.as_str()).collect();
    let mut sorted = ids.clone();
    sorted.sort();
    sorted.dedup();
    assert_eq!(ids, sorted);
    let seven = hash_bytes(b"file-7");
    let chosen = candidates.iter().find(|c| c.file_id == seven).unwrap();
    assert_eq!(chosen.source, "D:/first-copy");
    assert_eq!(chosen.size, 10);
}

fn record(id: &str, size: u64, available: bool) -> ClipboardFile {
    ClipboardFile { file_id: id.to_string(), size, available }
}

fn strings(items: &[&str]) -> Vec<String> {
    items.iter().map(|item| item.to_string()).collect()
}

#[test]
fn packed_nodes_point_at_their_packs_and_files_list_each_transfer_once() {
    let nodes = strings(&["a", "b", "c", "a", "d", "x"]);
    let pairs = vec![
        ("a".to_string(), "P".to_string()),
        ("b".to_string(), "P".to_string()),
        ("d".to_string(), "Q".to_string()),
    ];
    let packs = vec![("P".to_string(), 200), ("Q".to_string(), 50)];
    let known = vec![record("a", 10, true), record("c", 5, true), record("e", 1, false)];
    let (bs, files) = rewrite_pack_nodes(&nodes, &pairs, &packs, &known);
    let expected_bs: Vec<Option<String>> = vec![
        Some("P".to_string()),
        Some("P".to_string()),
        None,
        Some("P".to_string()),
        Some("Q".to_string()),
        None,
    ];
    assert_eq!(bs, expected_bs);
    let listed: Vec<(String, u64, bool)> =
        files.iter().map(|file| (file.file_id.clone(), file.size, file.available)).collect();
    assert_eq!(
        listed,
        vec![("P".to_string(), 200, false), ("c".to_string(), 5, true), ("Q".to_string(), 50, false)]
    );
}
