use cliproam::entry::{ClipboardEntry, EntrySummary, ImageInfo, LocalSources};
use cliproam::save::{save_target, single_file_content, SaveSession};
use cliproam::tree::TreeNode;

fn entry(file_info: Option<Vec<(String, TreeNode)>>, image: Option<&str>, content: &str) -> ClipboardEntry {
    ClipboardEntry {
        id: "e".to_string(),
        kind: if image.is_some() { "image".to_string() } else { "files".to_string() },
        content: content.to_string(),
        html: None,
        rtf: None,
        file_info,
        image_info: image.map(|id| ImageInfo { file_id: id.to_string(), size: 3, thumbnail: String::new() }),
        source_device_id: "d".to_string(),
        created_at: "now".to_string(),
        summary: EntrySummary::default(),
        sources: LocalSources::default(),
    }
}

fn file(f: &str) -> TreeNode {
    TreeNode::File { f: f.to_string(), s: 1 }
}

fn session(missing: &[(String, u64)]) -> SaveSession {
    SaveSession::new("e".to_string(), "D:/out".to_string(), "D:/out/.stage".to_string(), false, missing)
}

#[test]
fn saves_suggest_the_first_root_or_the_image_title() {
    let single = entry(Some(vec![("a.txt".to_string(), file("x"))]), None, "a.txt");
    assert_eq!(save_target(&single), Ok((true, "a.txt".to_string())));
    let folder = entry(Some(vec![("docs".to_string(), TreeNode::Dir(Vec::new()))]), None, "docs");
    assert_eq!(save_target(&folder), Ok((false, "docs".to_string())));
    let two = entry(Some(vec![("a".to_string(), file("x")), ("b".to_string(), file("y"))]), None, "a 等 2 项");
    assert_eq!(save_target(&two), Ok((false, "a".to_string())));
    let image = entry(None, Some("img"), "截图（3 × 4）");
    assert_eq!(save_target(&image), Ok((true, "截图（3 × 4）.webp".to_string())));
    let text = entry(None, None, "hello");
    assert_eq!(save_target(&text), Err("该记录不包含可另存的文件".to_string()));
}

#[test]
fn single_file_saves_copy_the_image_or_the_only_file() {
    let image = entry(None, Some("img"), "截图");
    assert_eq!(single_file_content(&image), Ok(("img".to_string(), "img".to_string())));
    let single = entry(Some(vec![("a.txt".to_string(), file("x"))]), None, "a.txt");
    assert_eq!(single_file_content(&single), Ok(("x".to_string(), "a.txt".to_string())));
    let folder = entry(Some(vec![("docs".to_string(), TreeNode::Dir(Vec::new()))]), None, "docs");
    assert_eq!(single_file_content(&folder), Err("该记录不包含可另存的文件".to_string()));
}

#[test]
fn a_session_downloads_each_content_once() {
    let mut s = session(&[("a".to_string(), 1), ("b".to_string(), 2), ("a".to_string(), 5)]);
    assert_eq!(s.expected.len(), 2);
    assert_eq!(s.begin_file("c", 1), Err("文件不属于当前另存为任务".to_string()));
    assert_eq!(s.begin_file("a", 1), Err("文件大小与另存为任务不一致".to_string()));
    assert_eq!(s.begin_file("a", 5), Ok(()));
    assert_eq!(s.begin_file("a", 5), Err("文件正在下载或已经下载".to_string()));
    assert_eq!(s.check_complete(), Err("另存为所需文件尚未下载完成".to_string()));
    s.abandon_file("a");
    assert_eq!(s.begin_file("a", 5), Ok(()));
    s.finish_file("a");
    assert_eq!(s.begin_file("a", 5), Err("文件正在下载或已经下载".to_string()));
    assert_eq!(s.begin_file("b", 2), Ok(()));
    s.finish_file("b");
    assert_eq!(s.check_complete(), Ok(()));
    assert_eq!(s.staged_path("b"), "D:/out/.stage/b");
}

#[test]
fn an_empty_session_is_complete() {
    assert_eq!(session(&[]).check_complete(), Ok(()));
}
