//! The decisions of one download's transfer loop: when it is done, when it
//! gives up, what a pull that ended means for it, and the request it sends.
//! The caller performs each step (pulling a stream, sleeping before a
//! retry, restarting the part file) and reports back.

use vstd::prelude::*;
use crate::config::{server_http_url, server_http_url_of, SyncConfig};
use crate::text::{append_str, decimal, decimal_string, owned, trim, trimmed, chars_of};
use crate::hashing::{concat_parts, content_id, content_id_of_parts, parts_view};

verus! {

/// How long a download keeps trying, from its first attempt: five minutes.
pub const DOWNLOAD_DEADLINE_MS: u64 = 300000;

/// The pause before a broken transfer starts over.
pub const RETRY_DELAY_MS: u64 = 3000;

/// How one pull of the file's stream ended.
#[derive(Clone, Debug)]
pub enum PullEnd {
    /// The stream ended; the file may still be incomplete.
    Drained,
    Cancelled(String),
    Failed(String),
}

/// What the transfer loop does next.
#[derive(Clone, Debug)]
pub enum TransferStep {
    /// Every byte arrived: finish the part file.
    Finish,
    /// Pull the stream (again).
    Pull,
    /// The transfer broke: drop the part file, wait `RETRY_DELAY_MS`, and
    /// start over from the first byte.
    Restart(String),
    /// Give up with this error.
    Fail(String),
    /// Stop: the task was cancelled.
    Cancel(String),
}

/// The state of one download's transfer loop: the bytes received since the
/// last (re)start, the file's size and when the loop gives up.
pub struct TransferAttempt {
    pub received: u64,
    pub size: u64,
    pub deadline_ms: u64,
}

pub open spec fn timeout_message() -> Seq<char> {
    "文件下载超时，没有设备能够提供该文件"@
}

impl TransferAttempt {
    /// A transfer that starts at `now_ms`; the
    /// deadline saturates at the end of time.
    pub fn start(size: u64, now_ms: u64) -> (r: TransferAttempt)
        ensures
            r.received == 0,
            r.size == size,
            r.deadline_ms == (if now_ms + DOWNLOAD_DEADLINE_MS <= u64::MAX {
                (now_ms + DOWNLOAD_DEADLINE_MS) as u64
            } else {
                u64::MAX
            }),
    {
        let deadline_ms = now_ms.saturating_add(DOWNLOAD_DEADLINE_MS);
        TransferAttempt { received: 0, size, deadline_ms }
    }

    /// The step at the top of the loop at `now_ms`: `Finish` once every
    /// byte is in, `Fail` with the timeout message at the deadline, `Pull`
    /// otherwise.
    pub fn next_step(&self, now_ms: u64) -> (step: TransferStep)
        ensures
            self.received >= self.size ==> step is Finish,
            self.received < self.size && now_ms >= self.deadline_ms ==> (step matches TransferStep::Fail(
                e,
            ) && e@ == timeout_message()),
            self.received < self.size && now_ms < self.deadline_ms ==> step is Pull,
    {
        if self.received >= self.size {
            TransferStep::Finish
        } else if now_ms >= self.deadline_ms {
            TransferStep::Fail(owned("文件下载超时，没有设备能够提供该文件"))
        } else {
            TransferStep::Pull
        }
    }

    /// Counts a chunk that was written to the part file.
    pub fn received_chunk(&mut self, len: u64)
        requires
            old(self).received + len <= u64::MAX,
        ensures
            final(self).received == old(self).received + len,
            final(self).size == old(self).size,
            final(self).deadline_ms == old(self).deadline_ms,
    {
        self.received = self.received + len;
    }

    /// What a pull that ended means: a drained stream goes back to the top
    /// of the loop, a cancellation stops, a failure starts the transfer over
    /// from the first byte (there is no resuming at an offset).
    pub fn after_pull(&mut self, end: PullEnd) -> (step: TransferStep)
        ensures
            final(self).size == old(self).size,
            final(self).deadline_ms == old(self).deadline_ms,
            match end {
                PullEnd::Drained => step is Pull && final(self).received == old(self).received,
                PullEnd::Cancelled(reason) => (step matches TransferStep::Cancel(r) && r@ == reason@)
                    && final(self).received == old(self).received,
                PullEnd::Failed(error) => (step matches TransferStep::Restart(e) && e@ == error@)
                    && final(self).received == 0,
            },
    {
        match end {
            PullEnd::Drained => TransferStep::Pull,
            PullEnd::Cancelled(reason) => TransferStep::Cancel(reason),
            PullEnd::Failed(error) => {
                self.received = 0;
                TransferStep::Restart(error)
            },
        }
    }
}

// ---------------------------------------------------------------------------
// The request
// ---------------------------------------------------------------------------

pub open spec fn not_signed_in_message() -> Seq<char> {
    "同步未登录，无法获取其他设备的文件"@
}

/// The server address and session token a pull uses: none
/// without a configuration or with a blank token, else the configured
/// server's HTTP address and the token as stored.
pub open spec fn pull_credentials_of(config: Option<(Seq<char>, Seq<char>, Seq<char>)>) -> Result<
    (Seq<char>, Seq<char>),
    Seq<char>,
> {
    match config {
        None => Err(not_signed_in_message()),
        Some((address, protocol, token)) => if trim(token).len() == 0 {
            Err(not_signed_in_message())
        } else {
            match server_http_url_of(address, protocol) {
                Ok(url) => Ok((url, token)),
                Err(e) => Err(e),
            }
        },
    }
}

pub open spec fn config_fields(config: Option<&SyncConfig>) -> Option<(Seq<char>, Seq<char>, Seq<char>)> {
    match config {
        None => None,
        Some(c) => Some((c.server_address@, c.server_protocol@, c.session_token@)),
    }
}

pub open spec fn credentials_chars(r: Result<(String, String), String>) -> Result<(Seq<char>, Seq<char>), Seq<char>> {
    match r {
        Ok((a, b)) => Ok((a@, b@)),
        Err(e) => Err(e@),
    }
}

/// The base address and token for pulling a file.
pub fn pull_credentials(config: Option<&SyncConfig>) -> (r: Result<(String, String), String>)
    ensures
        credentials_chars(r) == pull_credentials_of(config_fields(config)),
{
    match config {
        None => Err(owned("同步未登录，无法获取其他设备的文件")),
        Some(c) => {
            let cs = chars_of(c.session_token.as_str());
            let t = trimmed(cs.as_slice());
            if t.len() == 0 {
                return Err(owned("同步未登录，无法获取其他设备的文件"));
            }
            match server_http_url(c) {
                Ok(url) => Ok((url, owned(c.session_token.as_str()))),
                Err(e) => Err(e),
            }
        },
    }
}

/// `<base>/files/<entry>/<content>`, where a pull asks for a file.
pub open spec fn file_url_of(base: Seq<char>, entry_id: Seq<char>, file_id: Seq<char>) -> Seq<char> {
    base + "/files/"@ + entry_id + "/"@ + file_id
}

/// The address a pull requests.
pub fn file_url(base: &str, entry_id: &str, file_id: &str) -> (r: String)
    ensures
        r@ == file_url_of(base@, entry_id@, file_id@),
{
    let mut r = owned(base);
    append_str(&mut r, "/files/");
    append_str(&mut r, entry_id);
    append_str(&mut r, "/");
    append_str(&mut r, file_id);
    r
}

/// The `Authorization` header value for a session token.
pub fn bearer(token: &str) -> (r: String)
    ensures
        r@ == "Bearer "@ + token@,
{
    let mut r = owned("Bearer ");
    append_str(&mut r, token);
    r
}

/// The error a pull reports for a response: none for a
/// success (2xx); the sign-in message for 401; otherwise the server's own
/// message when its body carried one, or `服务器返回错误 <status>`.
pub open spec fn response_error_of(status: u16, message: Option<Seq<char>>) -> Option<Seq<char>> {
    if status == 401 {
        Some("登录已失效，请重新登录"@)
    } else if 200 <= status <= 299 {
        None
    } else {
        match message {
            Some(m) => Some(m),
            None => Some("服务器返回错误 "@ + decimal(status as nat)),
        }
    }
}

pub open spec fn opt_text(o: Option<String>) -> Option<Seq<char>> {
    match o {
        Some(s) => Some(s@),
        None => None,
    }
}

/// The error for a response with `status` whose body's `message` was read
/// when there was one.
pub fn response_error(status: u16, message: Option<String>) -> (r: Option<String>)
    ensures
        opt_text(r) == response_error_of(status, opt_text(message)),
{
    if status == 401 {
        Some(owned("登录已失效，请重新登录"))
    } else if 200 <= status && status <= 299 {
        None
    } else {
        match message {
            Some(m) => Some(m),
            None => {
                let mut r = owned("服务器返回错误 ");
                let digits = decimal_string(status as u64);
                append_str(&mut r, digits.as_str());
                Some(r)
            },
        }
    }
}

// ---------------------------------------------------------------------------
// The part file
// ---------------------------------------------------------------------------

pub open spec fn oversize_message() -> Seq<char> {
    "下载内容超过声明大小"@
}

/// The bytes received after a chunk is appended to a part file,
/// or the error when they pass the size the file was
/// announced with.
pub fn count_chunk(received: u64, expected: u64, len: u64) -> (r: Result<u64, String>)
    requires
        received + len <= u64::MAX,
    ensures
        received + len <= expected ==> r == Ok::<u64, String>((received + len) as u64),
        received + len > expected ==> (r matches Err(e) && e@ == oversize_message()),
{
    let total = received + len;
    if total > expected {
        Err(owned("下载内容超过声明大小"))
    } else {
        Ok(total)
    }
}

/// The checks a part file passes before it is promoted:
/// every announced byte arrived, then the digest of
/// what arrived names the content that was asked for.
pub open spec fn finish_check_of(received: u64, expected: u64, digest_hex: Seq<char>, file_id: Seq<char>) -> Result<
    (),
    Seq<char>,
> {
    if received != expected {
        Err("文件下载不完整"@)
    } else if digest_hex != file_id {
        Err("文件内容校验失败"@)
    } else {
        Ok(())
    }
}

pub open spec fn unit_result_view(r: Result<(), String>) -> Result<(), Seq<char>> {
    match r {
        Ok(()) => Ok(()),
        Err(e) => Err(e@),
    }
}

/// Whether a finished part file may replace the content it was downloaded
/// for, given the hex digest of its bytes.
pub fn finish_check(received: u64, expected: u64, digest_hex: &str, file_id: &str) -> (r: Result<(), String>)
    ensures
        unit_result_view(r) == finish_check_of(received, expected, digest_hex@, file_id@),
{
    if received != expected {
        Err(owned("文件下载不完整"))
    } else if !crate::text::str_eq(digest_hex, file_id) {
        Err(owned("文件内容校验失败"))
    } else {
        Ok(())
    }
}

/// Whether a finished part file may replace the content it was downloaded
/// for, given the part file's bytes as read back in chunks: their content
/// id must be the id that was asked for.
pub fn verify_downloaded_parts(received: u64, expected: u64, parts: &Vec<Vec<u8>>, file_id: &str) -> (r: Result<
    (),
    String,
>)
    ensures
        unit_result_view(r) == finish_check_of(
            received,
            expected,
            content_id(concat_parts(parts_view(parts@))),
            file_id@,
        ),
{
    let digest_hex = content_id_of_parts(parts);
    finish_check(received, expected, digest_hex.as_str(), file_id)
}

/// A part file is promoted only when it has every announced byte and its
/// digest is the content id it was downloaded for.
pub proof fn law_only_verified_downloads_are_promoted(received: u64, expected: u64, digest_hex: Seq<char>, file_id: Seq<char>)
    ensures
        finish_check_of(received, expected, digest_hex, file_id) is Ok <==> (received == expected && digest_hex == file_id),
{
}

} // verus!
