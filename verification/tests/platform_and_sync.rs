use cliproam::config::{
    default_exclude_patterns, history_key_for_config, http_url_from_authority, server_http_url, AccountPreferences,
    SyncConfig,
};
use cliproam::entry::{ClipboardEntry, EntrySummary, ImageInfo, LocalSources};
use cliproam::geometry::{calculate_history_position, calculate_toast_position};
use cliproam::hashing::hash_bytes;
use cliproam::manifest::{
    created_ms_or_zero, entry_created_ms, manifest_matches, manifest_needle, manifest_page, manifest_query,
    within_time_window, EntriesManifestFilter, SqlValue,
};
use cliproam::misc::{
    filter_unknown_file_ids, image_signature, millis_from_clock, now_millis, plan_share_import, referenced_file_ids,
    should_remove_blob, signature_from_pixels, FilePasteStrategy, PendingShare, SharedItem, DOWNLOAD_TTL_MS,
};
use cliproam::packing::{split_pack_candidates, PackCandidate, PACK_TARGET_SIZE};
use cliproam::tree::TreeNode;

#[test]
fn mod_paste_window_position_stays_inside_the_work_area() {
    let position = calculate_history_position(1900, 1050, 0, 0, 1920, 1080, 420, 560);
    assert!(position.x + 420 <= 1920);
    assert!(position.y + 560 <= 1080);
}

#[test]
fn lib_paste_window_position_stays_inside_the_work_area() {
    let position = calculate_history_position(1900, 1050, 0, 0, 1920, 1080, 420, 560);
    assert!(position.x + 420 <= 1920);
    assert!(position.y + 560 <= 1080);
}

#[test]
fn paste_window_opens_under_the_cursor_when_there_is_room() {
    let position = calculate_history_position(500, 300, 0, 0, 1920, 1080, 420, 560);
    assert_eq!((position.x, position.y), (290, 312));
}

#[test]
fn toast_appears_above_a_bottom_tray() {
    let position = calculate_toast_position(1850, 1040, 32, 32, 0, 0, 1920, 1040, 380, 88);
    assert_eq!(position.y, 944);
    assert!(position.x >= 8);
    assert!(position.x + 380 <= 1912);
}

#[test]
fn toast_appears_beside_a_right_tray() {
    let position = calculate_toast_position(1920, 850, 40, 32, 0, 0, 1920, 1080, 380, 88);
    assert_eq!(position.x, 1532);
    assert!(position.y >= 8);
    assert!(position.y + 88 <= 1072);
}

#[test]
fn toast_appears_below_a_top_tray() {
    let position = calculate_toast_position(900, 0, 32, 24, 0, 24, 1920, 1056, 380, 88);
    assert_eq!((position.x, position.y), (726, 32));
}

fn config(address: &str, protocol: &str) -> SyncConfig {
    SyncConfig {
        server_address: address.to_string(),
        server_protocol: protocol.to_string(),
        username: " Bob ".to_string(),
        session_token: String::new(),
    }
}

#[test]
fn accounts_select_their_own_history_profile() {
    assert_eq!(history_key_for_config(&config(" Srv:1 ", "http")), "account:srv:1:bob");
}

#[test]
fn server_addresses_are_host_and_port_only() {
    assert_eq!(server_http_url(&config("192.168.1.20:4810", "http")), Ok("http://192.168.1.20:4810".to_string()));
    assert_eq!(server_http_url(&config(" example.com:8443 ", "https")), Ok("https://example.com:8443".to_string()));
    assert_eq!(server_http_url(&config("  ", "http")), Err("请输入服务器 IP 和端口".to_string()));
    assert_eq!(
        server_http_url(&config("http://x:1", "http")),
        Err("只需填写 IP 和端口，例如 192.168.1.20:4810".to_string())
    );
    assert_eq!(server_http_url(&config("x:1/a", "http")), Err("只需填写 IP 和端口，例如 192.168.1.20:4810".to_string()));
    assert_eq!(server_http_url(&config("example.com", "http")), Err("服务器地址必须包含 IP 和端口".to_string()));
    assert_eq!(server_http_url(&config("exa mple:1", "http")), Err("服务器地址格式不正确".to_string()));
    assert_eq!(
        http_url_from_authority(true, Some((Some("h".to_string()), Some(1)))),
        Ok("https://h:1".to_string())
    );
    assert_eq!(http_url_from_authority(false, Some((Some(String::new()), Some(1)))), Err("服务器地址必须包含 IP 和端口".to_string()));
}

#[test]
fn account_preferences_have_their_defaults() {
    let preferences = AccountPreferences::default();
    assert_eq!(preferences.auto_upload_limit_mb, 50);
    assert!(preferences.auto_receive_clipboard);
    assert_eq!(preferences.exclude_patterns, default_exclude_patterns());
    assert_eq!(preferences.exclude_patterns, vec!["node_modules".to_string()]);
    assert_eq!((preferences.server_max_file_mb, preferences.manifest_page_size), (200, 100));
    assert_eq!(preferences.max_capture_file_count, 1000);
}

fn filter(query: &str, kind: &str, start: Option<i64>, end: Option<i64>, page: Option<usize>) -> EntriesManifestFilter {
    EntriesManifestFilter { query: query.to_string(), kind: kind.to_string(), start, end, page }
}

fn text_of(value: &SqlValue) -> String {
    match value {
        SqlValue::Text(text) => text.clone(),
        SqlValue::Integer(number) => number.to_string(),
    }
}

#[test]
fn manifest_filters_become_where_clauses() {
    let (sql, values) = manifest_query(&filter("", "all", None, None, None), &Vec::new(), "");
    assert_eq!(sql, "");
    assert!(values.is_empty());

    let (sql, values) = manifest_query(&filter("", "text", Some(5), Some(9), None), &Vec::new(), "");
    assert_eq!(sql, "WHERE kind = ? AND created_ms >= ? AND created_ms <= ?");
    assert_eq!(values.iter().map(text_of).collect::<Vec<_>>(), vec!["text", "5", "9"]);

    let devices = vec![("d1".to_string(), "Laptop".to_string()), ("d2".to_string(), "Phone".to_string())];
    let (sql, values) = manifest_query(&filter("", "all", None, None, None), &devices, "lap");
    assert_eq!(sql, "WHERE (LOWER(content) LIKE ? ESCAPE '\\' OR source_device_id IN (?))");
    assert_eq!(values.iter().map(text_of).collect::<Vec<_>>(), vec!["%lap%", "d1"]);

    let (sql, values) = manifest_query(&filter("", "all", None, None, None), &devices, "设备");
    assert_eq!(sql, "WHERE (LOWER(content) LIKE ? ESCAPE '\\' OR source_device_id NOT IN (?, ?))");
    assert_eq!(values.iter().map(text_of).collect::<Vec<_>>(), vec!["%设备%", "d1", "d2"]);

    let (sql, _) = manifest_query(&filter("", "all", None, None, None), &Vec::new(), "设备");
    assert_eq!(sql, "");
}

fn text_entry(id: &str, content: &str, device: &str, created_at: &str) -> ClipboardEntry {
    ClipboardEntry {
        id: id.to_string(),
        kind: "text".to_string(),
        content: content.to_string(),
        html: Some("<i>heavy</i>".to_string()),
        rtf: None,
        file_info: None,
        image_info: None,
        source_device_id: device.to_string(),
        created_at: created_at.to_string(),
        summary: EntrySummary::default(),
        sources: LocalSources::default(),
    }
}

#[test]
fn manifest_pages_filter_in_memory() {
    assert_eq!(entry_created_ms("2026-01-01T00:00:00.000Z"), 1767225600000);
    assert_eq!(entry_created_ms("not a time"), 0);
    assert_eq!(created_ms_or_zero(None), 0);
    assert!(within_time_window(Some(5), Some(5), Some(5)));
    assert!(!within_time_window(None, Some(1), None));
    assert!(within_time_window(None, None, None));

    let devices = vec![("d1".to_string(), "Laptop".to_string())];
    let entries: Vec<ClipboardEntry> = (0..60)
        .map(|i| text_entry(&format!("e{i}"), &format!("Note {i}"), if i % 2 == 0 { "d1" } else { "d9" }, "2026-01-01T00:00:00.000Z"))
        .collect();
    let f = filter("  NOTE ", "all", None, None, Some(2));
    assert_eq!(manifest_needle(&f), "note");
    assert!(manifest_matches(&entries[0], &f, &devices, "laptop"));
    assert!(!manifest_matches(&entries[1], &f, &devices, "laptop"));
    assert!(manifest_matches(&entries[1], &f, &devices, "未知"));
    assert!(!manifest_matches(&entries[0], &filter("", "image", None, None, None), &devices, ""));
    assert!(!manifest_matches(&entries[0], &filter("", "all", Some(1767225600001), None, None), &devices, ""));
    let page = manifest_page(&entries, &f, &devices);
    assert_eq!(page.total, 60);
    assert_eq!(page.entries.len(), 10);
    assert_eq!(page.entries[0].id, "e50");
    assert!(page.entries[0].html.is_none());
    let all = manifest_page(&entries, &filter("", "all", None, None, None), &devices);
    assert_eq!(all.entries.len(), 60);
    let beyond = manifest_page(&entries, &filter("", "all", None, None, Some(9)), &devices);
    assert!(beyond.entries.is_empty());
}

#[test]
fn many_small_contents_are_split_into_bounded_stable_packs() {
    let candidates = (0..300)
        .map(|index| PackCandidate {
            file_id: hash_bytes(format!("file-{index}").as_bytes()),
            source: format!("file-{index}"),
            size: 100 * 1024,
        })
        .collect::<Vec<_>>();
    let groups = split_pack_candidates(candidates.clone(), 0);
    let repeated = split_pack_candidates(candidates, 0);

    assert!(groups.len() < 300);
    assert_eq!(groups.iter().map(Vec::len).sum::<usize>(), 300);
    assert!(groups
        .iter()
        .all(|group| group.iter().map(|candidate| candidate.size + 72).sum::<u64>() <= PACK_TARGET_SIZE));
    assert_eq!(
        groups
            .iter()
            .map(|group| group.iter().map(|candidate| candidate.file_id.as_str()).collect::<Vec<_>>())
            .collect::<Vec<_>>(),
        repeated
            .iter()
            .map(|group| group.iter().map(|candidate| candidate.file_id.as_str()).collect::<Vec<_>>())
            .collect::<Vec<_>>(),
    );
}

#[test]
fn shares_become_text_image_or_file_captures() {
    let item = |mime: &str| SharedItem { path: "/p".to_string(), name: "n".to_string(), mime_type: mime.to_string() };
    let share = PendingShare { id: "s".to_string(), text: Some(" hi ".to_string()), html: None, items: vec![item("image/png")] };
    let plan = plan_share_import(&share);
    assert!(plan.text && plan.image && !plan.files);
    let share = PendingShare { id: "s".to_string(), text: Some("  ".to_string()), html: None, items: vec![item("image/png"), item("text/plain")] };
    let plan = plan_share_import(&share);
    assert!(!plan.text && !plan.image && plan.files);
    let share = PendingShare { id: "s".to_string(), text: None, html: None, items: Vec::new() };
    let plan = plan_share_import(&share);
    assert!(!plan.text && !plan.image && !plan.files);
}

#[test]
fn file_paste_strategy_decides_what_must_be_local() {
    let entry = text_entry("e", "x", "d", "t");
    assert_eq!(FilePasteStrategy::for_entry(&entry, true), FilePasteStrategy::MaterializedPaths);
    let mut files = entry;
    files.kind = "files".to_string();
    assert_eq!(FilePasteStrategy::for_entry(&files, true), FilePasteStrategy::VirtualStream);
    assert!(FilePasteStrategy::MaterializedPaths.requires_complete_content("files"));
    assert!(!FilePasteStrategy::VirtualStream.requires_complete_content("files"));
    assert!(FilePasteStrategy::VirtualStream.requires_complete_content("image"));
    assert!(!FilePasteStrategy::MaterializedPaths.requires_complete_content("text"));
}

#[test]
fn unknown_content_ids_skip_empty_repeated_and_known_ones() {
    let ids = vec!["a".to_string(), "".to_string(), "b".to_string(), "a".to_string(), "c".to_string(), "d".to_string()];
    let unknown = filter_unknown_file_ids(&ids, &vec!["b".to_string()], &vec!["c".to_string()]);
    assert_eq!(unknown, vec!["a".to_string(), "d".to_string()]);
}

#[test]
fn clock_readings_become_milliseconds() {
    assert_eq!(millis_from_clock(None), 0);
    assert_eq!(millis_from_clock(Some(42)), 42);
    assert_eq!(millis_from_clock(Some((1u128 << 64) + 5)), 5);
    assert!(now_millis() > 1_600_000_000_000);
}

#[test]
fn image_signatures_hash_decoded_pixels() {
    let garbage = b"not an image";
    let signature = image_signature(garbage);
    assert_eq!(signature, signature_from_pixels(garbage, None));
    assert!(signature.starts_with("12:"));
    let pixels = image::RgbaImage::from_raw(2, 1, vec![1, 2, 3, 255, 4, 5, 6, 255]).unwrap();
    let mut png = std::io::Cursor::new(Vec::new());
    image::DynamicImage::ImageRgba8(pixels.clone())
        .write_to(&mut png, image::ImageFormat::Png)
        .unwrap();
    let png = png.into_inner();
    let signature = image_signature(&png);
    assert!(signature.starts_with("2x1:"));
    assert_eq!(signature, signature_from_pixels(&png, Some((2, 1, pixels.into_raw()))));
}

#[test]
fn the_sweep_keeps_referenced_cached_blobs() {
    let id = hash_bytes(b"img");
    let entry = ClipboardEntry {
        image_info: Some(ImageInfo { file_id: id.clone(), size: 3, thumbnail: String::new() }),
        kind: "image".to_string(),
        ..text_entry("e", "x", "d", "t")
    };
    let mut files = text_entry("f", "x", "d", "t");
    files.file_info = Some(vec![("a".to_string(), TreeNode::File { f: "f1".to_string(), s: 1 })]);
    let referenced = referenced_file_ids(&vec![entry, files]);
    assert_eq!(referenced, vec![id.clone(), "f1".to_string()]);
    let cached = vec![id.clone()];
    assert!(!should_remove_blob(&id, &referenced, &cached, Some(0), DOWNLOAD_TTL_MS * 10));
    assert!(should_remove_blob("stray", &referenced, &cached, Some(100), 100));
    assert!(!should_remove_blob("f1", &referenced, &cached, Some(100), 100 + DOWNLOAD_TTL_MS));
    assert!(should_remove_blob("f1", &referenced, &cached, Some(100), 101 + DOWNLOAD_TTL_MS));
    assert!(should_remove_blob("f1", &referenced, &cached, None, 0));
}

use cliproam::misc::{cached_source_is_unchanged, hash_cache_eviction, HASH_CACHE_LIMIT};

#[test]
fn the_hash_cache_is_halved_past_its_limit() {
    assert_eq!(hash_cache_eviction(HASH_CACHE_LIMIT), None);
    assert_eq!(hash_cache_eviction(HASH_CACHE_LIMIT + 1), Some(10000));
    assert_eq!(hash_cache_eviction(0), None);
}

#[test]
fn hashed_files_stand_in_only_while_they_match_the_cache() {
    assert!(cached_source_is_unchanged(true, 10, Some(7), 10, 7));
    assert!(cached_source_is_unchanged(true, 10, None, 10, -1));
    assert!(!cached_source_is_unchanged(true, 10, None, 10, 7));
    assert!(!cached_source_is_unchanged(false, 10, Some(7), 10, 7));
    assert!(!cached_source_is_unchanged(true, 11, Some(7), 10, 7));
    assert!(!cached_source_is_unchanged(true, 10, Some(7), -5, -1));
    assert!(cached_source_is_unchanged(true, u64::MAX, Some(7), -5, -1));
}

use cliproam::geometry::{ClipboardPollGate, PasteDragFocus, DRAG_FOCUS_GRACE_MS};

#[test]
fn dragging_the_paste_window_ignores_focus_loss_for_a_while() {
    let mut guard = PasteDragFocus::new();
    assert!(!guard.ignores_focus_loss(0));
    guard.drag_started(false, 100);
    assert!(!guard.ignores_focus_loss(100));
    guard.drag_started(true, 100);
    assert!(guard.ignores_focus_loss(100 + DRAG_FOCUS_GRACE_MS));
    assert!(!guard.ignores_focus_loss(101 + DRAG_FOCUS_GRACE_MS));
    assert_eq!(guard.deadline_ms, None);
    guard.drag_started(true, 0);
    guard.clear();
    assert!(!guard.ignores_focus_loss(1));
}

#[test]
fn an_unchanged_clipboard_is_polled_once() {
    let mut gate = ClipboardPollGate::new();
    assert!(!gate.should_skip(7));
    assert!(gate.should_skip(7));
    assert!(!gate.should_skip(8));
    assert!(!gate.should_skip(0));
    assert!(!gate.should_skip(0));
}

use cliproam::manifest::{manifest_window, MANIFEST_PAGE_SIZE};

#[test]
fn database_pages_start_at_their_page() {
    assert_eq!(manifest_window(None), (None, 0));
    assert_eq!(manifest_window(Some(0)), (Some(MANIFEST_PAGE_SIZE), 0));
    assert_eq!(manifest_window(Some(1)), (Some(MANIFEST_PAGE_SIZE), 0));
    assert_eq!(manifest_window(Some(3)), (Some(MANIFEST_PAGE_SIZE), 100));
}
