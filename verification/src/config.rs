//! The sync account: which history profile it selects, the server's HTTP
//! base address, and the defaults of the per-account preferences.

use vstd::prelude::*;
use crate::text::{
    append_str, ascii_lower, chars_of, contains_chars, contains_seq, decimal, decimal_string, lower_ascii, owned,
    result_chars, string_from_chars, trim, trimmed,
};

verus! {

/// The session credentials: which server and which account.
#[derive(Clone, Debug)]
pub struct SyncConfig {
    pub server_address: String,
    pub server_protocol: String,
    pub username: String,
    pub session_token: String,
}

/// Per-account preferences, stored with the account's history profile.
#[derive(Clone, Debug)]
pub struct AccountPreferences {
    pub auto_upload_limit_mb: u64,
    pub auto_receive_clipboard: bool,
    /// Name patterns skipped when files are captured (`*` and `?` wildcards).
    pub exclude_patterns: Vec<String>,
    /// The server's per-file storage limit in MB.
    pub server_max_file_mb: u64,
    /// Entries per page when the synced history is pulled (10 to 100).
    pub manifest_page_size: u32,
    /// The most files one copy may hold.
    pub max_capture_file_count: u64,
}

/// `http` unless the account says otherwise.
pub fn default_server_protocol() -> (r: String)
    ensures
        r@ == "http"@,
{
    owned("http")
}

pub fn default_auto_upload_limit_mb() -> (r: u64)
    ensures
        r == 50,
{
    50
}

pub fn default_auto_receive_clipboard() -> (r: bool)
    ensures
        r,
{
    true
}

/// `node_modules` is skipped by default.
pub fn default_exclude_patterns() -> (r: Vec<String>)
    ensures
        r@.len() == 1,
        r@[0]@ == "node_modules"@,
{
    let mut v: Vec<String> = Vec::new();
    v.push(owned("node_modules"));
    v
}

pub fn default_server_max_file_mb() -> (r: u64)
    ensures
        r == 200,
{
    200
}

pub fn default_manifest_page_size() -> (r: u32)
    ensures
        r == 100,
{
    100
}

pub fn default_max_capture_file_count() -> (r: u64)
    ensures
        r == 1000,
{
    1000
}

impl Default for AccountPreferences {
    fn default() -> (p: AccountPreferences)
        ensures
            p.auto_upload_limit_mb == 50,
            p.auto_receive_clipboard,
            p.exclude_patterns@.len() == 1,
            p.exclude_patterns@[0]@ == "node_modules"@,
            p.server_max_file_mb == 200,
            p.manifest_page_size == 100,
            p.max_capture_file_count == 1000,
    {
        AccountPreferences {
            auto_upload_limit_mb: default_auto_upload_limit_mb(),
            auto_receive_clipboard: default_auto_receive_clipboard(),
            exclude_patterns: default_exclude_patterns(),
            server_max_file_mb: default_server_max_file_mb(),
            manifest_page_size: default_manifest_page_size(),
            max_capture_file_count: default_max_capture_file_count(),
        }
    }
}

/// `account:<server>:<user>`, both trimmed and ASCII-lower-cased.
pub open spec fn history_key_of(server_address: Seq<char>, username: Seq<char>) -> Seq<char> {
    "account:"@ + ascii_lower(trim(server_address)) + ":"@ + ascii_lower(trim(username))
}

fn trimmed_lower(s: &str) -> (r: String)
    ensures
        r@ == ascii_lower(trim(s@)),
{
    let cs = chars_of(s);
    let t = trimmed(cs.as_slice());
    let l = lower_ascii(t.as_slice());
    string_from_chars(l.as_slice())
}

/// The history profile a sync account selects.
pub fn history_key_for_config(config: &SyncConfig) -> (key: String)
    ensures
        key@ == history_key_of(config.server_address@, config.username@),
{
    let mut key = owned("account:");
    let server = trimmed_lower(config.server_address.as_str());
    append_str(&mut key, server.as_str());
    append_str(&mut key, ":");
    let user = trimmed_lower(config.username.as_str());
    append_str(&mut key, user.as_str());
    key
}

/// What parsing `text` as a URL yields: `None` when it does not parse,
/// else its host and its explicit, non-default port.
pub uninterp spec fn http_authority(text: Seq<char>) -> Option<(Option<Seq<char>>, Option<u16>)>;

pub open spec fn opt_chars(o: Option<String>) -> Option<Seq<char>> {
    match o {
        Some(s) => Some(s@),
        None => None,
    }
}

/// `url::Url::parse`, with the parsed URL's `host_str` and `port`: the
/// contract names the result and says nothing more of it.
#[verifier::external_body]
fn parse_http_authority(text: &str) -> (r: Option<(Option<String>, Option<u16>)>)
    ensures
        match r {
            None => http_authority(text@) is None,
            Some(p) => http_authority(text@) == Some((opt_chars(p.0), p.1)),
        },
{
    match url::Url::parse(text) {
        Ok(url) => {
            let host = match url.host_str() {
                Some(h) => Some(h.to_string()),
                None => None,
            };
            Some((host, url.port()))
        },
        Err(_) => None,
    }
}

pub open spec fn missing_address_message() -> Seq<char> {
    "请输入服务器 IP 和端口"@
}

pub open spec fn host_port_only_message() -> Seq<char> {
    "只需填写 IP 和端口，例如 192.168.1.20:4810"@
}

pub open spec fn malformed_address_message() -> Seq<char> {
    "服务器地址格式不正确"@
}

pub open spec fn incomplete_address_message() -> Seq<char> {
    "服务器地址必须包含 IP 和端口"@
}

/// The base URL for a parsed `host:port`: refused without a host or port.
pub open spec fn http_url_of(secure: bool, parsed: Option<(Option<Seq<char>>, Option<u16>)>) -> Result<Seq<char>, Seq<char>> {
    match parsed {
        None => Err(malformed_address_message()),
        Some((host, port)) => if host is None || host->0.len() == 0 || port is None {
            Err(incomplete_address_message())
        } else {
            Ok((if secure { "https"@ } else { "http"@ }) + "://"@ + host->0 + ":"@ + decimal(port->0 as nat))
        },
    }
}

pub open spec fn parsed_view(p: Option<(Option<String>, Option<u16>)>) -> Option<(Option<Seq<char>>, Option<u16>)> {
    match p {
        None => None,
        Some(x) => Some((opt_chars(x.0), x.1)),
    }
}

/// The HTTP base address for a parsed server address (the part of
/// `server_http_url` after the URL parser has run).
pub fn http_url_from_authority(secure: bool, parsed: Option<(Option<String>, Option<u16>)>) -> (r: Result<String, String>)
    ensures
        result_chars(r) == http_url_of(secure, parsed_view(parsed)),
{
    match parsed {
        None => Err(owned("服务器地址格式不正确")),
        Some((host, port)) => {
            match (host, port) {
                (Some(h), Some(p)) => {
                    if h.as_str().is_empty() {
                        return Err(owned("服务器地址必须包含 IP 和端口"));
                    }
                    let mut url = if secure {
                        owned("https")
                    } else {
                        owned("http")
                    };
                    append_str(&mut url, "://");
                    append_str(&mut url, h.as_str());
                    append_str(&mut url, ":");
                    let digits = decimal_string(p as u64);
                    append_str(&mut url, digits.as_str());
                    Ok(url)
                },
                _ => Err(owned("服务器地址必须包含 IP 和端口")),
            }
        },
    }
}

/// The server's HTTP base address for an account, or why it has none.
pub open spec fn server_http_url_of(address: Seq<char>, protocol: Seq<char>) -> Result<Seq<char>, Seq<char>> {
    let candidate = trim(address);
    if candidate.len() == 0 {
        Err(missing_address_message())
    } else if contains_seq(candidate, "://"@) || candidate.contains('/') {
        Err(host_port_only_message())
    } else {
        http_url_of(protocol == "https"@, http_authority("http://"@ + candidate))
    }
}

/// The server's HTTP base address, `http(s)://<host>:<port>`:
/// only `host:port` is accepted, without scheme or
/// path.
pub fn server_http_url(config: &SyncConfig) -> (r: Result<String, String>)
    ensures
        result_chars(r) == server_http_url_of(config.server_address@, config.server_protocol@),
{
    let cs = chars_of(config.server_address.as_str());
    let candidate = trimmed(cs.as_slice());
    if candidate.len() == 0 {
        return Err(owned("请输入服务器 IP 和端口"));
    }
    let scheme_mark = chars_of("://");
    let mut has_slash = false;
    let mut i: usize = 0;
    while i < candidate.len()
        invariant
            i <= candidate.len(),
            has_slash == exists|k: int| 0 <= k < i && candidate@[k] == '/',
        decreases candidate.len() - i,
    {
        if candidate[i] == '/' {
            has_slash = true;
        }
        i = i + 1;
    }
    if contains_chars(candidate.as_slice(), scheme_mark.as_slice()) || has_slash {
        return Err(owned("只需填写 IP 和端口，例如 192.168.1.20:4810"));
    }
    let mut text = owned("http://");
    let c = string_from_chars(candidate.as_slice());
    append_str(&mut text, c.as_str());
    let parsed = parse_http_authority(text.as_str());
    let https = owned("https");
    let secure = config.server_protocol == https;
    proof {
        reveal_strlit("https");
    }
    http_url_from_authority(secure, parsed)
}

} // verus!
