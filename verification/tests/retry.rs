use cliproam::config::SyncConfig;
use cliproam::hashing::{content_id_of_parts, hash_bytes};
use cliproam::retry::{
    bearer, file_url, pull_credentials, response_error, verify_downloaded_parts, PullEnd, TransferAttempt,
    TransferStep, DOWNLOAD_DEADLINE_MS,
};

fn config(address: &str, token: &str) -> SyncConfig {
    SyncConfig {
        server_address: address.to_string(),
        server_protocol: "http".to_string(),
        username: "u".to_string(),
        session_token: token.to_string(),
    }
}

#[test]
fn a_transfer_finishes_once_every_byte_is_in() {
    let mut attempt = TransferAttempt::start(10, 1000);
    assert_eq!(attempt.deadline_ms, 1000 + DOWNLOAD_DEADLINE_MS);
    assert!(matches!(attempt.next_step(1000), TransferStep::Pull));
    attempt.received_chunk(6);
    assert!(matches!(attempt.after_pull(PullEnd::Drained), TransferStep::Pull));
    assert!(matches!(attempt.next_step(2000), TransferStep::Pull));
    attempt.received_chunk(4);
    assert!(matches!(attempt.next_step(2000), TransferStep::Finish));
}

#[test]
fn a_broken_transfer_restarts_from_the_first_byte_until_the_deadline() {
    let mut attempt = TransferAttempt::start(10, 0);
    attempt.received_chunk(7);
    match attempt.after_pull(PullEnd::Failed("同步连接已断开".to_string())) {
        TransferStep::Restart(error) => assert_eq!(error, "同步连接已断开"),
        _ => panic!("a failed pull restarts"),
    }
    assert_eq!(attempt.received, 0);
    match attempt.next_step(DOWNLOAD_DEADLINE_MS) {
        TransferStep::Fail(error) => assert_eq!(error, "文件下载超时，没有设备能够提供该文件"),
        _ => panic!("the deadline ends the transfer"),
    }
    match attempt.after_pull(PullEnd::Cancelled("已取消".to_string())) {
        TransferStep::Cancel(reason) => assert_eq!(reason, "已取消"),
        _ => panic!("a cancelled pull stops"),
    }
    assert_eq!(TransferAttempt::start(1, u64::MAX - 1).deadline_ms, u64::MAX);
}

#[test]
fn pulls_need_a_session() {
    let expected = Err("同步未登录，无法获取其他设备的文件".to_string());
    assert_eq!(pull_credentials(None), expected);
    assert_eq!(pull_credentials(Some(&config("10.0.0.2:8080", "  "))), expected);
    assert_eq!(
        pull_credentials(Some(&config("10.0.0.2:8080", "tok"))),
        Ok(("http://10.0.0.2:8080".to_string(), "tok".to_string()))
    );
    assert!(pull_credentials(Some(&config("", "tok"))).is_err());
}

#[test]
fn pull_requests_name_the_entry_and_content() {
    assert_eq!(file_url("http://h:1", "e1", "abc"), "http://h:1/files/e1/abc");
    assert_eq!(bearer("tok"), "Bearer tok");
}

#[test]
fn responses_become_errors() {
    assert_eq!(response_error(200, None), None);
    assert_eq!(response_error(206, Some("x".to_string())), None);
    assert_eq!(response_error(401, Some("x".to_string())), Some("登录已失效，请重新登录".to_string()));
    assert_eq!(response_error(404, Some("文件不存在".to_string())), Some("文件不存在".to_string()));
    assert_eq!(response_error(500, None), Some("服务器返回错误 500".to_string()));
}

use cliproam::retry::{count_chunk, finish_check};

#[test]
fn part_files_are_checked_before_promotion() {
    assert_eq!(count_chunk(0, 10, 4), Ok(4));
    assert_eq!(count_chunk(4, 10, 6), Ok(10));
    assert_eq!(count_chunk(4, 10, 7), Err("下载内容超过声明大小".to_string()));
    assert_eq!(finish_check(9, 10, "ab", "ab"), Err("文件下载不完整".to_string()));
    assert_eq!(finish_check(10, 10, "ab", "cd"), Err("文件内容校验失败".to_string()));
    assert_eq!(finish_check(10, 10, "ab", "ab"), Ok(()));
}

#[test]
fn chunked_content_has_the_id_of_its_whole_bytes() {
    let parts = vec![b"hello ".to_vec(), Vec::new(), b"world".to_vec()];
    assert_eq!(content_id_of_parts(&parts), hash_bytes(b"hello world"));
    assert_eq!(
        content_id_of_parts(&parts),
        "b94d27b9934d3e08a52e52d7da7dabfac484efe37a5380ee9088f7ace2efcde9"
    );
    assert_eq!(content_id_of_parts(&Vec::new()), hash_bytes(b""));
}

#[test]
fn downloaded_parts_are_checked_against_the_asked_id() {
    let parts = vec![b"hello ".to_vec(), b"world".to_vec()];
    let id = hash_bytes(b"hello world");
    assert_eq!(verify_downloaded_parts(11, 11, &parts, &id), Ok(()));
    assert_eq!(verify_downloaded_parts(10, 11, &parts, &id), Err("文件下载不完整".to_string()));
    assert_eq!(
        verify_downloaded_parts(11, 11, &parts, &hash_bytes(b"hello")),
        Err("文件内容校验失败".to_string())
    );
}
