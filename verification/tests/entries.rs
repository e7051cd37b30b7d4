use cliproam::descriptor::{file_item, initialize, normalize_descriptor_path, supports_entry, virtual_items};
use cliproam::edit::{apply_hashes, tree_node_at_path};
use cliproam::entry::{
    entry_contents_of, lightweight_entry, preserve_local_sources, refresh_summary, ClipboardEntry, EntrySummary,
    ImageInfo, LocalSource, LocalSources, SummaryContext,
};
use cliproam::hashing::hash_bytes;
use cliproam::tree::{collect_paths, copy_file_info, count_files, describe_roots, root_kind, tree_contents, FileInfo, TreeNode};

fn file(f: &str, s: u64) -> TreeNode {
    TreeNode::File { f: f.to_string(), s }
}

fn files_entry(file_info: FileInfo, sources: LocalSources) -> ClipboardEntry {
    ClipboardEntry {
        id: "entry".to_string(),
        kind: "files".to_string(),
        content: String::new(),
        html: None,
        rtf: None,
        file_info: Some(file_info),
        image_info: None,
        source_device_id: "device".to_string(),
        created_at: "now".to_string(),
        summary: EntrySummary::default(),
        sources,
    }
}

fn source(path: &str, file_id: Option<&str>, size: u64) -> LocalSource {
    LocalSource {
        path: path.to_string(),
        source: format!("D:/{path}"),
        size,
        modified_at: None,
        file_id: file_id.map(str::to_string),
    }
}

#[test]
fn descriptor_paths_fall_back_before_the_fixed_filename_buffer_overflows() {
    assert!(normalize_descriptor_path(&"a".repeat(259)).is_ok());
    assert!(normalize_descriptor_path(&"a".repeat(260)).is_err());
    assert!(normalize_descriptor_path("root/../outside").is_err());
}

#[test]
fn descriptor_paths_use_backslashes_and_refuse_odd_segments() {
    assert_eq!(normalize_descriptor_path("a/b"), Ok("a\\b".to_string()));
    assert_eq!(
        normalize_descriptor_path("a//b"),
        Err("虚拟文件路径不合法：a//b".to_string())
    );
    assert!(normalize_descriptor_path("/a").is_err());
    assert!(normalize_descriptor_path("").is_err());
    assert!(normalize_descriptor_path("a\0b").is_err());
    // Characters beyond the basic plane take two UTF-16 units.
    assert!(normalize_descriptor_path(&"😀".repeat(129)).is_ok());
    assert!(normalize_descriptor_path(&"😀".repeat(130)).is_err());
    assert_eq!(initialize(), Ok(()));
}

#[test]
fn describe_roots_distinguishes_multiple_roots_from_files() {
    let roots: FileInfo = vec![
        ("docs".to_string(), TreeNode::Dir(Vec::new())),
        ("readme.md".to_string(), file("", 1)),
        ("assets".to_string(), TreeNode::Dir(Vec::new())),
    ];
    assert_eq!(describe_roots(&roots), "docs 等 3 项");
    assert_eq!(describe_roots(&vec![("docs".to_string(), TreeNode::Dir(Vec::new()))]), "docs");
    assert_eq!(describe_roots(&Vec::new()), "文件");
}

#[test]
fn tree_contents_are_deduplicated_in_encounter_order() {
    let a = hash_bytes(b"a");
    let b = hash_bytes(b"b");
    let info: FileInfo = vec![(
        "bundle".to_string(),
        TreeNode::Dir(vec![
            ("x".to_string(), file(&a, 1)),
            ("sub".to_string(), TreeNode::Dir(vec![("y".to_string(), file(&b, 2)), ("z".to_string(), file(&a, 9))])),
            ("w".to_string(), file("", 3)),
        ]),
    )];
    assert_eq!(tree_contents(&info), vec![(a.clone(), 1), (b.clone(), 2)]);
    assert_eq!(count_files(&info, false), 4);
    assert_eq!(count_files(&info, true), 3);
    assert_eq!(root_kind(&info), "dir");
    assert_eq!(collect_paths(&info), vec!["bundle/x", "bundle/sub/y", "bundle/sub/z", "bundle/w"]);
    assert!(matches!(tree_node_at_path(&info, "bundle/sub/y"), Some(TreeNode::File { s: 2, .. })));
    assert!(tree_node_at_path(&info, "bundle/x/y").is_none());
    assert!(tree_node_at_path(&info, "missing").is_none());
}

// An entry's contents are the hashed leaves of its file map; there is no
// separate file list. So the content only the server holds is the leaf
// `bundle/c`, and the file still waiting for its hash is a fourth leaf,
// `bundle/d`: the leaf counts are one higher than with a separate list (four
// files, three of them hashed), while the content counts, sizes and upload
// figures are the same.
#[test]
fn refresh_summary_separates_ready_pending_and_uploadable_contents() {
    let uploaded = hash_bytes(b"uploaded");
    let local = hash_bytes(b"local");
    let remote = hash_bytes(b"remote");
    let info: FileInfo = vec![(
        "bundle".to_string(),
        TreeNode::Dir(vec![
            ("a".to_string(), file(&uploaded, 100)),
            ("b".to_string(), file(&local, 300)),
            ("c".to_string(), file(&remote, 500)),
            ("d".to_string(), file("", 7)),
        ]),
    )];
    let mut entry = files_entry(
        info,
        LocalSources { roots: Vec::new(), files: vec![source("bundle/b", Some(&local), 300)] },
    );
    let context = SummaryContext {
        stored: vec![uploaded.clone()],
        blobs: vec![uploaded.clone()],
        cache_dir: "cache".to_string(),
    };
    refresh_summary(&mut entry, &context, Some("ignored".to_string()));
    let summary = &entry.summary;
    assert_eq!(summary.root_kind, "dir");
    assert_eq!((summary.file_count, summary.hashed_count), (4, 3));
    assert_eq!(summary.content_count, 3);
    assert_eq!((summary.total_size, summary.max_file_size), (900, 500));
    assert_eq!(summary.uploaded_count, 1);
    assert_eq!(summary.ready_count, 2);
    assert_eq!((summary.pending_count, summary.pending_size), (1, 500));
    // Only the cached-but-unpublished content can still be uploaded.
    assert_eq!(summary.uploadable_size, Some(300));
    assert!(summary.preview_path.is_none());
}

#[test]
fn image_entries_get_their_preview_and_single_content() {
    let id = hash_bytes(b"pixels");
    let mut entry = ClipboardEntry {
        id: "img".to_string(),
        kind: "image".to_string(),
        content: "image".to_string(),
        html: None,
        rtf: None,
        file_info: None,
        image_info: Some(ImageInfo { file_id: id.clone(), size: 42, thumbnail: String::new() }),
        source_device_id: "d".to_string(),
        created_at: "now".to_string(),
        summary: EntrySummary::default(),
        sources: LocalSources::default(),
    };
    assert_eq!(entry_contents_of(&entry), vec![(id.clone(), 42)]);
    let context = SummaryContext { stored: Vec::new(), blobs: Vec::new(), cache_dir: "c".to_string() };
    refresh_summary(&mut entry, &context, Some("c/upload/images/x".to_string()));
    assert_eq!(entry.summary.root_kind, "file");
    assert_eq!((entry.summary.file_count, entry.summary.pending_count), (1, 1));
    assert_eq!(entry.summary.preview_path.as_deref(), Some("c/upload/images/x"));
    assert_eq!(entry.summary.uploadable_size, None);
}

#[test]
fn list_copies_drop_heavy_fields_and_describe_files() {
    let info: FileInfo = vec![("docs".to_string(), TreeNode::Dir(Vec::new())), ("a".to_string(), file("", 1))];
    let mut entry = files_entry(info, LocalSources { roots: vec!["D:/docs".to_string()], files: Vec::new() });
    entry.html = Some("<b>x</b>".to_string());
    let light = lightweight_entry(&entry);
    assert_eq!(light.content, "docs 等 2 项");
    assert!(light.file_info.is_none());
    assert!(light.html.is_none());
    assert!(light.sources.roots.is_empty());
    assert_eq!(light.id, "entry");
}

#[test]
fn local_sources_survive_only_a_matching_structure() {
    let info: FileInfo = vec![("bundle".to_string(), TreeNode::Dir(vec![("a".to_string(), file("", 1))]))];
    let local = files_entry(
        copy_file_info(&info),
        LocalSources {
            roots: vec!["D:/bundle".to_string()],
            files: vec![source("bundle/a", None, 1), source("bundle/gone", None, 2)],
        },
    );
    let mut remote = files_entry(info, LocalSources::default());
    preserve_local_sources(&mut remote, &local);
    assert_eq!(remote.sources.roots, vec!["D:/bundle".to_string()]);
    assert_eq!(remote.sources.files.len(), 1);
    assert_eq!(remote.sources.files[0].path, "bundle/a");

    let mut other = files_entry(vec![("x".to_string(), file("", 1)), ("y".to_string(), file("", 1))], LocalSources::default());
    preserve_local_sources(&mut other, &local);
    assert!(other.sources.roots.is_empty());
}

#[test]
fn resolved_hashes_fill_the_tree_and_drop_vanished_files() {
    let a = hash_bytes(b"a");
    let info: FileInfo = vec![(
        "bundle".to_string(),
        TreeNode::Dir(vec![("a".to_string(), file("", 1)), ("gone".to_string(), file("", 2))]),
    )];
    let mut entry = files_entry(
        info,
        LocalSources {
            roots: vec!["D:/bundle".to_string()],
            files: vec![source("bundle/a", None, 1), source("bundle/gone", None, 2), source("other", None, 3)],
        },
    );
    let resolved = vec![
        ("bundle/a".to_string(), Some(a.clone())),
        ("bundle/gone".to_string(), None),
        ("nowhere/x".to_string(), Some(a.clone())),
    ];
    apply_hashes(&mut entry, &resolved);
    let info = entry.file_info.as_ref().unwrap();
    assert!(matches!(tree_node_at_path(info, "bundle/a"), Some(TreeNode::File { f, s: 1 }) if *f == a));
    assert!(tree_node_at_path(info, "bundle/gone").is_none());
    assert_eq!(entry.sources.files.len(), 2);
    assert_eq!(entry.sources.files[0].file_id.as_deref(), Some(a.as_str()));
    assert_eq!(entry.sources.files[1].path, "other");
    assert_eq!(entry.content, "bundle");
}

#[test]
fn virtual_items_list_directories_before_their_files() {
    let a = hash_bytes(b"a");
    let info: FileInfo = vec![(
        "bundle".to_string(),
        TreeNode::Dir(vec![("a.txt".to_string(), file(&a, 4)), ("empty".to_string(), TreeNode::Dir(Vec::new()))]),
    )];
    let entry = files_entry(info, LocalSources::default());
    let items = virtual_items(&entry).unwrap();
    let paths: Vec<&str> = items.iter().map(|i| i.relative_path.as_str()).collect();
    assert_eq!(paths, vec!["bundle", "bundle\\a.txt", "bundle\\empty"]);
    assert!(items[0].is_dir && !items[1].is_dir);
    assert_eq!(items[1].size, Some(4));
    assert!(supports_entry(&entry));

    let pending = files_entry(vec![("x".to_string(), file("", 1))], LocalSources::default());
    assert_eq!(virtual_items(&pending).err(), Some("文件内容尚未准备好：x".to_string()));
    assert!(file_item("x", "nothex", 1).is_err());
    let empty = files_entry(Vec::new(), LocalSources::default());
    assert_eq!(virtual_items(&empty).err(), Some("该记录不包含文件".to_string()));
}

use cliproam::entry::{hash_cache_time, local_sources_for, source_is_unchanged, unresolved_sources};

#[test]
fn local_sources_stand_in_only_while_unchanged() {
    let mut s = source("bundle/a", Some("x"), 10);
    assert!(source_is_unchanged(&s, true, 10, Some(5)));
    assert!(!source_is_unchanged(&s, false, 10, None));
    assert!(!source_is_unchanged(&s, true, 11, None));
    s.modified_at = Some(5);
    assert!(source_is_unchanged(&s, true, 10, Some(5)));
    assert!(!source_is_unchanged(&s, true, 10, Some(6)));
    assert!(!source_is_unchanged(&s, true, 10, None));
}

#[test]
fn sources_are_found_by_content_and_pending_ones_listed() {
    let entry = files_entry(
        Vec::new(),
        LocalSources {
            roots: Vec::new(),
            files: vec![source("a", Some("x"), 1), source("b", None, 2), source("c", Some("x"), 3), source("d", Some("y"), 4)],
        },
    );
    let found = local_sources_for(&entry, "x");
    assert_eq!(found.iter().map(|s| s.path.as_str()).collect::<Vec<_>>(), vec!["a", "c"]);
    let pending = unresolved_sources(&entry);
    assert_eq!(pending.iter().map(|s| s.path.as_str()).collect::<Vec<_>>(), vec!["b"]);
    assert_eq!(hash_cache_time(None), -1);
    assert_eq!(hash_cache_time(Some(1700000000000)), 1700000000000);
}

use cliproam::entry::entry_references;

#[test]
fn entries_reference_their_contents() {
    let entry = files_entry(
        vec![("a".to_string(), file("x", 1)), ("d".to_string(), TreeNode::Dir(vec![("b".to_string(), file("y", 2))]))],
        LocalSources::default(),
    );
    assert!(entry_references(&entry, "x"));
    assert!(entry_references(&entry, "y"));
    assert!(!entry_references(&entry, "z"));
}
