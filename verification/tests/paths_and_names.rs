use cliproam::glob::{glob_match, name_matches_any};
use cliproam::hashing::{entry_id, fnv1a, hash_bytes, is_file_id, rich_text_signature, to_hex, RichText};
use cliproam::paths::{
    cache_dir_for, cache_dir_for_path, cached_file_path, clipboard_relative_path, default_active_history,
    download_path, history_path_for_key, join, numbered_file_name, partial_download_path, safe_file_name,
    safe_history_directory_name, sanitize_root_name, unique_root_name, upload_image_path,
};
use cliproam::pending::{pending_seqs_for, temp_entry_id, temp_entry_seq};
use cliproam::sql::{escape_like, newest_first_sql, placeholders};
use sha2::Digest;
use std::path::Path;

#[test]
fn matches_plain_names_and_wildcards() {
    let patterns = vec!["node_modules".to_string(), "*.log".to_string(), "build*".to_string()];
    assert!(name_matches_any("node_modules", &patterns));
    assert!(name_matches_any("NODE_MODULES", &patterns));
    assert!(name_matches_any("error.log", &patterns));
    assert!(name_matches_any("build-output", &patterns));
    assert!(name_matches_any("build", &patterns));
    assert!(!name_matches_any("my_node_modules_backup", &patterns));
    assert!(!name_matches_any("logs", &patterns));
    assert!(!name_matches_any("readme.md", &[]));
}

#[test]
fn content_cache_paths_reject_ids_that_are_not_content_hashes() {
    let cache = Path::new("cache");
    assert!(upload_image_path("cache", "../escape").is_none());
    assert!(download_path("cache", &"A".repeat(64)).is_none());
    let file_id = hash_bytes(b"content");
    assert_eq!(
        Path::new(&upload_image_path("cache", &file_id).unwrap()),
        cache.join("upload").join("images").join(&file_id)
    );
    assert_eq!(
        Path::new(&download_path("cache", &file_id).unwrap()),
        cache.join("download").join(&file_id)
    );
}

#[test]
fn paths_cache_paths_reject_ids_that_are_not_content_hashes() {
    let cache = Path::new("cache");
    assert!(upload_image_path("cache", "../escape").is_none());
    assert!(download_path("cache", &"A".repeat(64)).is_none());
    let file_id = hash_bytes(b"content");
    assert_eq!(
        Path::new(&upload_image_path("cache", &file_id).unwrap()),
        cache.join("upload").join("images").join(&file_id)
    );
    assert_eq!(
        Path::new(&download_path("cache", &file_id).unwrap()),
        cache.join("download").join(&file_id)
    );
}

#[test]
fn macos_html_transport_wrapper_keeps_the_same_signature() {
    let fragment = RichText {
        text: "hello".to_string(),
        html: Some("<b>hello</b>".to_string()),
        rtf: None,
    };
    let wrapped = RichText {
        text: fragment.text.clone(),
        html: Some(format!(
            "<html><head><meta http-equiv=\"content-type\" content=\"text/html; charset=utf-8\"></head><body>{}</body></html>",
            fragment.html.as_deref().unwrap()
        )),
        rtf: None,
    };
    assert_eq!(rich_text_signature(&fragment), rich_text_signature(&wrapped));
}

#[test]
fn entry_id_is_stable_per_content_and_device() {
    assert_eq!(entry_id("same", "device"), entry_id("same", "device"));
    assert_ne!(entry_id("same", "device"), entry_id("other", "device"));
    assert_ne!(entry_id("same", "device"), entry_id("same", "other-device"));
}

#[test]
fn entry_id_is_the_sha256_of_content_nul_device() {
    let expected = to_hex(&sha2::Sha256::digest(b"same\0device"));
    assert_eq!(entry_id("same", "device"), expected);
}

#[test]
fn hash_bytes_is_the_hex_sha256() {
    let expected = to_hex(&sha2::Sha256::digest(b"content"));
    let id = hash_bytes(b"content");
    assert_eq!(id, expected);
    assert_ne!(id, "content");
    assert!(is_file_id(&id));
}

#[test]
fn hex_encodes_each_byte_as_two_lower_case_digits() {
    assert_eq!(to_hex(&[0x00, 0xab, 0x10, 0xff]), "00ab10ff");
    assert_eq!(to_hex(&[]), "");
}

#[test]
fn file_ids_are_sixty_four_lower_hex_digits() {
    assert!(is_file_id(&"0a".repeat(32)));
    assert!(!is_file_id(&"0A".repeat(32)));
    assert!(!is_file_id(&"a".repeat(63)));
    assert!(!is_file_id(&"a".repeat(65)));
    assert!(!is_file_id(""));
}

#[test]
fn fnv1a_matches_the_reference_vectors() {
    assert_eq!(fnv1a(b""), 0xcbf29ce484222325);
    assert_eq!(fnv1a(b"a"), 0xaf63dc4c8601ec8c);
}

#[test]
fn rich_text_signature_separates_its_parts() {
    let joined = RichText { text: "ab".to_string(), html: None, rtf: None };
    let split = RichText { text: "a".to_string(), html: Some("b".to_string()), rtf: None };
    assert_ne!(rich_text_signature(&joined), rich_text_signature(&split));
    assert_eq!(rich_text_signature(&joined).len(), 16);
}

#[test]
fn joining_follows_path_push() {
    assert_eq!(join("a", "b"), "a/b");
    assert_eq!(join("a/", "b"), "a/b");
    assert_eq!(join("", "b"), "b");
    assert_eq!(join("a", "/b"), "/b");
}

#[test]
fn cached_file_prefers_the_upload_copy() {
    let id = "ab".repeat(32);
    assert_eq!(
        cached_file_path("c", &id, true, true),
        Some(format!("c/upload/images/{id}"))
    );
    assert_eq!(cached_file_path("c", &id, false, true), Some(format!("c/download/{id}")));
    assert_eq!(cached_file_path("c", &id, false, false), None);
    assert_eq!(cached_file_path("c", "bad", true, true), None);
}

#[test]
fn partial_downloads_get_the_part_extension() {
    assert_eq!(partial_download_path("c/download/abc"), "c/download/abc.part");
    assert_eq!(partial_download_path("a/b.bin"), "a/b.part");
    assert_eq!(partial_download_path("a/.hidden"), "a/.hidden.part");
    assert_eq!(partial_download_path("a/.."), "a/..");
    assert_eq!(partial_download_path("cache/download/ab12/"), "cache/download/ab12.part");
    assert_eq!(partial_download_path("a/b/."), "a/b.part");
    assert_eq!(partial_download_path("/"), "/");
    assert_eq!(partial_download_path("."), ".");
}

#[test]
fn relative_paths_stay_inside_their_base() {
    assert_eq!(clipboard_relative_path("a/b", false), Ok("a/b".to_string()));
    assert_eq!(clipboard_relative_path("a//b/./c", false), Ok("a/b/c".to_string()));
    assert_eq!(clipboard_relative_path("a/../b", false), Err("文件相对路径不合法".to_string()));
    assert_eq!(clipboard_relative_path("/a", false), Err("文件相对路径不合法".to_string()));
    assert_eq!(clipboard_relative_path("./a", false), Err("文件相对路径不合法".to_string()));
    assert_eq!(clipboard_relative_path("", false), Err("文件相对路径为空".to_string()));
    assert_eq!(clipboard_relative_path("a/.", false), Ok("a".to_string()));
}

#[test]
fn root_names_are_made_safe() {
    assert_eq!(sanitize_root_name("  a:b. "), "a_b");
    assert_eq!(sanitize_root_name("..."), "file");
    assert_eq!(sanitize_root_name("\tx"), "_x");
    assert_eq!(sanitize_root_name("docs"), "docs");
}

#[test]
fn repeated_root_names_get_a_counter_before_the_extension() {
    let mut used = Vec::new();
    assert_eq!(unique_root_name("docs", &mut used), "docs");
    assert_eq!(unique_root_name("docs", &mut used), "docs (2)");
    assert_eq!(unique_root_name("docs", &mut used), "docs (3)");
    assert_eq!(unique_root_name("a.txt", &mut used), "a.txt");
    assert_eq!(unique_root_name("a.txt", &mut used), "a (2).txt");
    assert_eq!(unique_root_name(".bashrc", &mut used), ".bashrc");
    assert_eq!(unique_root_name(".bashrc", &mut used), ".bashrc (2)");
    assert_eq!(used.len(), 7);
}

#[test]
fn history_profiles_live_in_hashed_directories() {
    assert_eq!(default_active_history(), "local");
    assert_eq!(safe_history_directory_name("account:srv:bob"), "srv_bob");
    assert_eq!(safe_history_directory_name("account:"), "local");
    assert_eq!(safe_file_name("a b/c.txt"), "a_b_c.txt");
    let key = "account:srv:bob";
    let expected = format!("h/srv_bob-{:016x}/history.sqlite", fnv1a(key.as_bytes()));
    assert_eq!(history_path_for_key("h", key), expected);
    assert_eq!(cache_dir_for("h", key), format!("h/srv_bob-{:016x}/files", fnv1a(key.as_bytes())));
    assert_eq!(cache_dir_for_path("h/x/history.sqlite"), "h/x/files");
    assert_eq!(cache_dir_for_path("history.sqlite"), "files");
    assert_eq!(cache_dir_for_path("a/b/."), "a/files");
    assert_eq!(cache_dir_for_path("a/b/"), "a/files");
    assert_eq!(cache_dir_for_path("a//b"), "a/files");
    assert_eq!(cache_dir_for_path("/a"), "/files");
    assert_eq!(cache_dir_for_path("./a"), "./files");
    assert_eq!(cache_dir_for_path("/history.sqlite"), "/files");
}

#[test]
fn temporary_ids_round_trip() {
    assert_eq!(temp_entry_id(42), "p42");
    assert_eq!(temp_entry_seq(&temp_entry_id(42)), Some(42));
    assert_eq!(temp_entry_seq("p+12"), Some(12));
    assert_eq!(temp_entry_seq("p0"), None);
    assert_eq!(temp_entry_seq("p-3"), None);
    assert_eq!(temp_entry_seq("p"), None);
    assert_eq!(temp_entry_seq("x1"), None);
    assert_eq!(temp_entry_seq("p12a"), None);
    assert_eq!(temp_entry_seq("p9223372036854775807"), Some(i64::MAX));
    assert_eq!(temp_entry_seq("p9223372036854775808"), None);
    assert_eq!(temp_entry_seq("p99999999999999999999"), None);
}

#[test]
fn only_temporary_ids_name_queue_rows() {
    let ids = vec!["p3".to_string(), "17".to_string(), "p0".to_string(), "p8".to_string()];
    assert_eq!(pending_seqs_for(&ids), vec![3, 8]);
}

#[test]
fn sql_helpers_build_literal_text() {
    assert_eq!(placeholders(0), "");
    assert_eq!(placeholders(3), "?, ?, ?");
    assert_eq!(escape_like("50%_off\\"), "50\\%\\_off\\\\");
    assert_eq!(newest_first_sql(None, 7), " ORDER BY created_ms DESC, rowid DESC");
    assert_eq!(
        newest_first_sql(Some(50), 100),
        " ORDER BY created_ms DESC, rowid DESC LIMIT 50 OFFSET 100"
    );
}

#[test]
fn glob_wildcards_match_runs_and_single_characters() {
    assert!(glob_match("abc", "a?c"));
    assert!(glob_match("abc", "*"));
    assert!(glob_match("", "*"));
    assert!(!glob_match("abc", "a?"));
    assert!(glob_match("abc", "abc"));
    assert!(!glob_match("abd", "abc"));
    assert!(name_matches_any("Readme.MD", &["  *.md ".to_string()]));
}

use cliproam::sql::{queue_table_outdated, schema_batch};

#[test]
fn the_schema_batch_migrates_only_what_an_old_database_has() {
    let fresh = schema_batch(&Vec::new(), &Vec::new());
    assert!(fresh.starts_with(
        "DROP INDEX IF EXISTS entries_source_app_created_at;\nDROP INDEX IF EXISTS entries_created_at;\nDROP INDEX IF EXISTS entries_kind_created_at;\n\n        CREATE TABLE IF NOT EXISTS metadata ("
    ));
    assert!(!fresh.contains("ALTER TABLE"));
    assert!(!fresh.contains("DELETE FROM files"));
    let old = schema_batch(
        &vec!["id".to_string(), "pinned".to_string()],
        &vec!["file_id".to_string(), "available".to_string(), "size".to_string()],
    );
    assert!(old.contains("ALTER TABLE entries DROP COLUMN pinned;\nALTER TABLE files RENAME COLUMN available TO stored;\nALTER TABLE files DROP COLUMN size;\nDELETE FROM files WHERE stored = 0;\n"));
    assert!(!old.contains("source_app;\n"));
    assert!(old.contains("CREATE TABLE IF NOT EXISTS hash_cache"));
    assert!(queue_table_outdated(&vec!["seq".to_string(), "entry_id".to_string()]));
    assert!(!queue_table_outdated(&vec!["seq".to_string(), "content".to_string()]));
}

use cliproam::pending::announced_deletions;

#[test]
fn only_published_entries_announce_their_deletion() {
    let removed = vec!["12".to_string(), "p3".to_string(), "gone".to_string(), "44".to_string()];
    let existing = vec!["44".to_string(), "12".to_string(), "p3".to_string()];
    assert_eq!(announced_deletions(&removed, &existing), vec!["12".to_string(), "44".to_string()]);
}

#[test]
fn shared_copies_are_numbered_before_the_extension() {
    assert_eq!(numbered_file_name("photo.jpg", 2), "photo (2).jpg");
    assert_eq!(numbered_file_name("archive.tar.gz", 3), "archive.tar (3).gz");
    assert_eq!(numbered_file_name(".bashrc", 2), ".bashrc (2)");
    assert_eq!(numbered_file_name("notes", 10), "notes (10)");
}

#[test]
fn ascii_names_match_whatever_their_case() {
    let patterns = vec![" *.log ".to_string(), "Build?".to_string()];
    for name in ["error.log", "ERROR.LOG", "Error.Log"] {
        assert!(name_matches_any(name, &patterns));
    }
    assert!(name_matches_any("BUILDS", &patterns));
    assert!(!name_matches_any("BUILD", &patterns));
}

#[test]
fn windows_relative_paths_cannot_leave_their_base() {
    let illegal = Err("文件相对路径不合法".to_string());
    assert_eq!(clipboard_relative_path("..\\x", true), illegal);
    assert_eq!(clipboard_relative_path("\\x", true), illegal);
    assert_eq!(clipboard_relative_path("C:\\x", true), illegal);
    assert_eq!(clipboard_relative_path("c:x", true), illegal);
    assert_eq!(clipboard_relative_path("a\\..\\b", true), illegal);
    assert_eq!(clipboard_relative_path(".\\a", true), illegal);
    assert_eq!(clipboard_relative_path("a\\b", true), Ok("a\\b".to_string()));
    assert_eq!(clipboard_relative_path("a/b\\.\\c", true), Ok("a\\b\\c".to_string()));
    assert_eq!(clipboard_relative_path("\\", true), illegal);
    // Elsewhere a backslash is an ordinary character of a name.
    assert_eq!(clipboard_relative_path("..\\x", false), Ok("..\\x".to_string()));
}

#[test]
fn a_lone_star_pattern_matches_every_name() {
    let patterns = vec!["  *  ".to_string()];
    for name in ["", "readme.md", "Ünïcode", "NODE_MODULES"] {
        assert!(name_matches_any(name, &patterns));
    }
}
