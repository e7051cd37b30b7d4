use cliproam::hashing::{entry_id, hash_bytes};
use cliproam::identity::{entry_id_for_files, text_less_exec, ClipboardFile};

fn chars(s: &str) -> Vec<char> {
    s.chars().collect()
}

fn file(id: &str) -> ClipboardFile {
    ClipboardFile { file_id: id.to_string(), size: 1, available: false }
}

#[test]
fn file_entry_id_is_order_independent_and_deduplicated() {
    let first = ClipboardFile { file_id: hash_bytes(b"first"), size: 1, available: false };
    let second = ClipboardFile { file_id: hash_bytes(b"second"), size: 2, available: false };
    assert_eq!(
        entry_id_for_files(&[first.clone(), second.clone(), first.clone()], "device", "fallback"),
        entry_id_for_files(&[second, first], "device", "fallback"),
    );
}

#[test]
fn file_identity_is_the_sorted_ids_one_per_line() {
    let files = [file("b"), file(""), file("a"), file("c"), file("a")];
    assert_eq!(entry_id_for_files(&files, "device", "fallback"), entry_id("a\nb\nc", "device"));
    assert_eq!(entry_id_for_files(&[file("only")], "device", "fallback"), entry_id("only", "device"));
}

#[test]
fn files_without_ids_fall_back() {
    assert_eq!(entry_id_for_files(&[], "device", "fallback"), entry_id("fallback", "device"));
    assert_eq!(entry_id_for_files(&[file(""), file("")], "device", "fallback"), entry_id("fallback", "device"));
    assert_ne!(entry_id_for_files(&[file("x")], "device", "fallback"), entry_id_for_files(&[file("x")], "other", "fallback"));
}

#[test]
fn text_order_is_by_code_point() {
    assert!(text_less_exec(&chars("a"), &chars("b")));
    assert!(text_less_exec(&chars("ab"), &chars("abc")));
    assert!(!text_less_exec(&chars("abc"), &chars("ab")));
    assert!(!text_less_exec(&chars("same"), &chars("same")));
    assert!(text_less_exec(&chars("Z"), &chars("a")));
    assert!(text_less_exec(&chars("z"), &chars("é")));
    assert!(text_less_exec(&chars(""), &chars("x")));
    assert_eq!(text_less_exec(&chars("é"), &chars("z")), "é" < "z");
}
