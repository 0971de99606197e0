//! Streaming a chunked file over HTTP: range headers, the window of a read
//! inside the current chunk, the order in which chunk links are warmed, the
//! retry budget of a stream, the lifetime of a cached direct link and the
//! content types that are served or refused.
use vstd::prelude::*;
use crate::external::{lowercase, unicode_lowercase};
use vstd::utf8::encode_utf8;
use std::collections::HashMap;
use crate::vfs::VfsNode;
use crate::text::{decimal, push_decimal, push_str_chars, string_from_chars, after_last, after_last_chars, ascii_lower, before_first, before_first_chars,
    chars_eq, chars_of, first_of, find_char, has_suffix, parse_u64, parse_unsigned, slice_chars,
    to_ascii_lower, trim_chars, trim_spec};

verus! {

broadcast use vstd::std_specs::hash::group_hash_axioms;

/// The size of every chunk but the last.
pub const CHUNK_SIZE: u64 = 100 * 1024 * 1024;

/// How long after it was resolved a direct link is refreshed, in milliseconds.
pub const DIRECT_LINK_REFRESH_AFTER_MS: u64 = 150 * 1000;

/// How long a direct link may be used, in milliseconds.
pub const DIRECT_LINK_TTL_MS: u64 = 240 * 1000;

/// How long after its last read a file's links are still kept fresh, in
/// milliseconds.
pub const MEDIA_ACTIVE_WINDOW_MS: u64 = 600 * 1000;

// ----------------------------------------------------------------------
// Range headers
// ----------------------------------------------------------------------

pub open spec fn opt_str_view(o: Option<&str>) -> Option<Seq<char>> {
    match o {
        Some(s) => Some(s@),
        None => None,
    }
}

pub open spec fn bytes_prefix() -> Seq<char> {
    seq!['b', 'y', 't', 'e', 's', '=']
}

pub open spec fn min_int(a: int, b: int) -> int {
    if a <= b {
        a
    } else {
        b
    }
}

/// The first and last byte a `start-end` or `-suffix` range names, before
/// they are checked against the file.
pub open spec fn range_bounds(start: Seq<char>, end: Seq<char>, total: u64) -> Option<(int, int)> {
    if start.len() == 0 {
        match parse_unsigned(end, 10, u64::MAX as nat) {
            None => None,
            Some(suffix) => if suffix == 0 {
                None
            } else {
                let s = min_int(suffix as int, total as int);
                Some((total - s, total - 1))
            },
        }
    } else {
        match parse_unsigned(start, 10, u64::MAX as nat) {
            None => None,
            Some(a) => if end.len() == 0 {
                Some((a as int, total - 1))
            } else {
                match parse_unsigned(end, 10, u64::MAX as nat) {
                    None => None,
                    Some(b) => Some((a as int, min_int(b as int, total - 1))),
                }
            },
        }
    }
}

/// What a `Range` header asks of a file of `total` bytes: the first and last
/// byte and whether a range was asked at all; `None` where the header cannot
/// be served (a single `bytes=` range is the only form accepted).
pub open spec fn byte_range(header: Option<Seq<char>>, total: u64) -> Option<(u64, u64, bool)> {
    if total == 0 {
        None
    } else {
        match header {
            None => Some((0, (total - 1) as u64, false)),
            Some(h) => if !(h.len() >= 6 && h.take(6) == bytes_prefix()) {
                None
            } else {
                let r = h.skip(6);
                if r.contains(',') {
                    None
                } else {
                    match first_of(r, '-') {
                        None => None,
                        Some(i) => match range_bounds(r.take(i), r.skip(i + 1), total) {
                            None => None,
                            Some((a, b)) => if a >= total || b < a {
                                None
                            } else {
                                Some((a as u64, b as u64, true))
                            },
                        },
                    }
                }
            },
        }
    }
}

/// Reads a `Range` header against a file of `total_size` bytes.
pub fn parse_byte_range(range_header: Option<&str>, total_size: u64) -> (r: Result<
    (u64, u64, bool),
    (),
>)
    ensures
        match r {
            Ok(t) => byte_range(opt_str_view(range_header), total_size) == Some(t),
            Err(_) => byte_range(opt_str_view(range_header), total_size) is None,
        },
        r matches Ok((first, last, _)) ==> first <= last < total_size,
{
    if total_size == 0 {
        return Err(());
    }
    let header = match range_header {
        None => {
            return Ok((0, total_size - 1, false));
        },
        Some(h) => h,
    };
    let h = chars_of(header);
    if h.len() < 6 || h[0] != 'b' || h[1] != 'y' || h[2] != 't' || h[3] != 'e' || h[4] != 's' || h[5]
        != '=' {
        proof {
            if h@.len() >= 6 && h@.take(6) == bytes_prefix() {
                assert(h@.take(6)[0] == 'b');
                assert(h@.take(6)[5] == '=');
            }
        }
        return Err(());
    }
    proof {
        assert(h@.take(6) =~= bytes_prefix());
    }
    let range = slice_chars(h.as_slice(), 6, h.len());
    assert(range@ =~= h@.skip(6));
    if crate::text::contains_char(range.as_slice(), ',') {
        return Err(());
    }
    let dash = match find_char(range.as_slice(), '-') {
        None => {
            return Err(());
        },
        Some(i) => i,
    };
    let start_s = slice_chars(range.as_slice(), 0, dash);
    let end_s = slice_chars(range.as_slice(), dash + 1, range.len());
    proof {
        assert(start_s@ =~= range@.take(dash as int));
        assert(end_s@ =~= range@.skip(dash + 1));
    }
    let (start, end): (u64, u64) = if start_s.len() == 0 {
        let suffix = match parse_u64(end_s.as_slice()) {
            None => {
                return Err(());
            },
            Some(v) => v,
        };
        if suffix == 0 {
            return Err(());
        }
        let suffix = if suffix < total_size {
            suffix
        } else {
            total_size
        };
        (total_size - suffix, total_size - 1)
    } else {
        let start = match parse_u64(start_s.as_slice()) {
            None => {
                return Err(());
            },
            Some(v) => v,
        };
        let end = if end_s.len() == 0 {
            total_size - 1
        } else {
            match parse_u64(end_s.as_slice()) {
                None => {
                    return Err(());
                },
                Some(v) => if v < total_size - 1 {
                    v
                } else {
                    total_size - 1
                },
            }
        };
        (start, end)
    };
    if start >= total_size || end < start {
        return Err(());
    }
    Ok((start, end, true))
}

// ----------------------------------------------------------------------
// Windows of a read inside one chunk
// ----------------------------------------------------------------------

/// The part of one chunk that a read covers.
#[derive(Debug, PartialEq, Eq, Structural)]
pub struct ChunkWindow {
    pub index: usize,
    pub local_start: u64,
    pub local_end: u64,
    pub length: u64,
}

/// The window of a read of `remaining` bytes from `global_offset` inside the
/// chunk that holds that offset; `None` when nothing is left to read or the
/// offset lies past the last of `chunk_count` chunks.
pub open spec fn chunk_window(global_offset: u64, remaining: u64, chunk_count: usize) -> Option<
    ChunkWindow,
> {
    let index = global_offset / CHUNK_SIZE;
    if remaining == 0 || index >= chunk_count {
        None
    } else {
        let local_start = global_offset % CHUNK_SIZE;
        let length = min_int(remaining as int, CHUNK_SIZE - local_start);
        Some(
            ChunkWindow {
                index: index as usize,
                local_start: local_start as u64,
                local_end: (local_start + length - 1) as u64,
                length: length as u64,
            },
        )
    }
}

pub fn next_chunk_window(global_offset: u64, remaining: u64, chunk_count: usize) -> (r: Option<
    ChunkWindow,
>)
    ensures
        r == chunk_window(global_offset, remaining, chunk_count),
        r matches Some(w) ==> {
            &&& 1 <= w.length <= remaining
            &&& w.local_start <= w.local_end < CHUNK_SIZE
            &&& w.local_end - w.local_start + 1 == w.length
            &&& w.index * CHUNK_SIZE + w.local_start == global_offset
        },
{
    if remaining == 0 {
        return None;
    }
    let index = global_offset / CHUNK_SIZE;
    if index >= chunk_count as u64 {
        return None;
    }
    let local_start = global_offset % CHUNK_SIZE;
    let available = CHUNK_SIZE - local_start;
    let length = if remaining < available {
        remaining
    } else {
        available
    };
    proof {
        assert(index * CHUNK_SIZE + local_start == global_offset) by (nonlinear_arith)
            requires
                index == global_offset / CHUNK_SIZE,
                local_start == global_offset % CHUNK_SIZE,
                CHUNK_SIZE > 0,
        ;
    }
    Some(
        ChunkWindow {
            index: index as usize,
            local_start,
            local_end: local_start + length - 1,
            length,
        },
    )
}

/// The chunk after the one that holds `start_bytes`, when there is one.
pub open spec fn seek_chunk_to_warm(start_bytes: u64, chunk_count: usize) -> Option<usize> {
    let next = start_bytes / CHUNK_SIZE + 1;
    if next < chunk_count {
        Some(next as usize)
    } else {
        None
    }
}

pub fn next_seek_chunk_to_warm(start_bytes: u64, chunk_count: usize) -> (r: Option<usize>)
    ensures
        r == seek_chunk_to_warm(start_bytes, chunk_count),
{
    let current = start_bytes / CHUNK_SIZE;
    if current < u64::MAX && current + 1 < chunk_count as u64 {
        Some((current + 1) as usize)
    } else {
        None
    }
}

// ----------------------------------------------------------------------
// Recovering a failing stream
// ----------------------------------------------------------------------

/// What a stream does after a failure.
#[derive(Debug, Clone, Copy, PartialEq, Eq, Structural)]
pub enum RecoveryAction {
    RetrySameUrl,
    RefreshLink,
    Fail,
}

/// The retries a stream has spent: one retry of the current link, then one
/// fresh link, and nothing more.
#[derive(Debug, Clone, Copy, PartialEq, Eq, Structural)]
pub struct StreamRecovery {
    pub retried_current_url: bool,
    pub refreshed_link: bool,
}

impl Default for StreamRecovery {
    fn default() -> (r: Self)
        ensures
            !r.retried_current_url,
            !r.refreshed_link,
    {
        StreamRecovery { retried_current_url: false, refreshed_link: false }
    }
}

/// The state and action after a transport failure.
pub open spec fn after_transport_failure(s: StreamRecovery) -> (StreamRecovery, RecoveryAction) {
    if !s.retried_current_url {
        (StreamRecovery { retried_current_url: true, ..s }, RecoveryAction::RetrySameUrl)
    } else if !s.refreshed_link {
        (
            StreamRecovery { retried_current_url: false, refreshed_link: true },
            RecoveryAction::RefreshLink,
        )
    } else {
        (s, RecoveryAction::Fail)
    }
}

/// The state and action after the server refused the link's content.
pub open spec fn after_rejected_link(s: StreamRecovery) -> (StreamRecovery, RecoveryAction) {
    if s.refreshed_link {
        (s, RecoveryAction::Fail)
    } else {
        (
            StreamRecovery { retried_current_url: false, refreshed_link: true },
            RecoveryAction::RefreshLink,
        )
    }
}

impl StreamRecovery {
    pub fn transport_failure(&mut self) -> (r: RecoveryAction)
        ensures
            (*final(self), r) == after_transport_failure(*old(self)),
    {
        if !self.retried_current_url {
            self.retried_current_url = true;
            RecoveryAction::RetrySameUrl
        } else if !self.refreshed_link {
            self.refreshed_link = true;
            self.retried_current_url = false;
            RecoveryAction::RefreshLink
        } else {
            RecoveryAction::Fail
        }
    }

    pub fn rejected_link(&mut self) -> (r: RecoveryAction)
        ensures
            (*final(self), r) == after_rejected_link(*old(self)),
    {
        if self.refreshed_link {
            RecoveryAction::Fail
        } else {
            self.refreshed_link = true;
            self.retried_current_url = false;
            RecoveryAction::RefreshLink
        }
    }
}

/// Once a stream has refreshed its link, no failure of either kind refreshes
/// it again, and the stream stays marked as refreshed.
pub proof fn law_link_refreshed_at_most_once(s: StreamRecovery)
    requires
        s.refreshed_link,
    ensures
        after_transport_failure(s).1 != RecoveryAction::RefreshLink,
        after_transport_failure(s).0.refreshed_link,
        after_rejected_link(s).1 == RecoveryAction::Fail,
        after_rejected_link(s).0 == s,
{
}

/// Whatever a stream has spent, the fourth of four transport failures in a
/// row fails it, and a failed stream stays failed.
pub proof fn law_transport_failures_are_bounded(s: StreamRecovery)
    ensures
        ({
            let s1 = after_transport_failure(s).0;
            let s2 = after_transport_failure(s1).0;
            let s3 = after_transport_failure(s2).0;
            &&& after_transport_failure(s3).1 == RecoveryAction::Fail
            &&& after_transport_failure(after_transport_failure(s3).0).1 == RecoveryAction::Fail
        }),
{
}

/// One failure: a transport failure (`true`) or a refused link (`false`).
pub open spec fn after_failure(s: StreamRecovery, transport: bool) -> (StreamRecovery, RecoveryAction) {
    if transport {
        after_transport_failure(s)
    } else {
        after_rejected_link(s)
    }
}

/// How many of the answers to the failures `fs`, met from state `s` on,
/// are `a`.
pub open spec fn answers_of(s: StreamRecovery, fs: Seq<bool>, a: RecoveryAction) -> nat
    decreases fs.len(),
{
    if fs.len() == 0 {
        0
    } else {
        let (next, x) = after_failure(s, fs[0]);
        (if x == a {
            1nat
        } else {
            0nat
        }) + answers_of(next, fs.drop_first(), a)
    }
}

proof fn lemma_answers_bounded(s: StreamRecovery, fs: Seq<bool>)
    ensures
        answers_of(s, fs, RecoveryAction::RefreshLink) <= (if s.refreshed_link {
            0nat
        } else {
            1nat
        }),
        answers_of(s, fs, RecoveryAction::RetrySameUrl) <= (if s.retried_current_url {
            0nat
        } else {
            1nat
        }) + (if s.refreshed_link {
            0nat
        } else {
            1nat
        }),
    decreases fs.len(),
{
    if fs.len() > 0 {
        lemma_answers_bounded(after_failure(s, fs[0]).0, fs.drop_first());
    }
}

/// The retry budget of a stream, over any run of failures of either kind
/// from a fresh start: the link is refreshed at most once and the same link
/// retried at most twice, so at most three failures get anything but `Fail`;
/// a refused link is never retried as it is.
pub proof fn law_retry_budget(fs: Seq<bool>)
    ensures
        forall|s: StreamRecovery| (#[trigger] after_rejected_link(s)).1 != RecoveryAction::RetrySameUrl,
        answers_of(StreamRecovery { retried_current_url: false, refreshed_link: false }, fs, RecoveryAction::RefreshLink) <= 1,
        answers_of(StreamRecovery { retried_current_url: false, refreshed_link: false }, fs, RecoveryAction::RetrySameUrl) <= 2,
{
    lemma_answers_bounded(StreamRecovery { retried_current_url: false, refreshed_link: false }, fs);
}

// ----------------------------------------------------------------------
// Cached direct links
// ----------------------------------------------------------------------

/// A resolved direct link with the instants, in milliseconds of a monotonic
/// clock, at which it should be refreshed and after which it is unusable.
#[derive(Debug, Clone)]
pub struct CachedDirectUrl {
    pub url: String,
    pub refresh_at: u64,
    pub expires_at: u64,
}

impl CachedDirectUrl {
    /// A link resolved at `now`.
    pub fn new(url: String, now: u64) -> (r: Self)
        requires
            now + DIRECT_LINK_TTL_MS <= u64::MAX,
        ensures
            r.url == url,
            r.refresh_at == now + DIRECT_LINK_REFRESH_AFTER_MS,
            r.expires_at == now + DIRECT_LINK_TTL_MS,
    {
        CachedDirectUrl {
            url,
            refresh_at: now + DIRECT_LINK_REFRESH_AFTER_MS,
            expires_at: now + DIRECT_LINK_TTL_MS,
        }
    }

    pub fn is_usable_at(&self, now: u64) -> (r: bool)
        ensures
            r == (now < self.expires_at),
    {
        now < self.expires_at
    }

    pub fn needs_refresh_at(&self, now: u64) -> (r: bool)
        ensures
            r == (now >= self.refresh_at),
    {
        now >= self.refresh_at
    }
}

/// A link is due for refreshing before it expires: at every instant at which
/// a freshly resolved link is no longer usable, it already needs a refresh,
/// and there is a stretch in which it is usable and due.
pub proof fn law_links_refresh_before_they_expire(url: String, now: u64, t: u64)
    requires
        now + DIRECT_LINK_TTL_MS <= u64::MAX,
    ensures
        ({
            let e = CachedDirectUrl {
                url,
                refresh_at: (now + DIRECT_LINK_REFRESH_AFTER_MS) as u64,
                expires_at: (now + DIRECT_LINK_TTL_MS) as u64,
            };
            &&& !(t < e.expires_at) ==> t >= e.refresh_at
            &&& e.refresh_at < e.expires_at
        }),
{
}

// ----------------------------------------------------------------------
// Content types
// ----------------------------------------------------------------------

/// The media type of a `Content-Type` value: what stands before the first
/// `;`, trimmed and in ASCII lower case.
pub open spec fn media_type(content_type: Seq<char>) -> Seq<char> {
    ascii_lower(trim_spec(before_first(content_type, ';')))
}

pub fn normalized_content_type(content_type: &str) -> (r: String)
    ensures
        r@ == media_type(content_type@),
{
    let cs = chars_of(content_type);
    let head = before_first_chars(cs.as_slice(), ';');
    let trimmed = trim_chars(head.as_slice());
    let lower = to_ascii_lower(trimmed.as_slice());
    crate::text::string_from_chars(lower.as_slice())
}

pub open spec fn plus_json() -> Seq<char> {
    seq!['+', 'j', 's', 'o', 'n']
}

/// A media type that marks an error page: HTML, JSON or a `+json` type.
pub open spec fn is_error_media_type(m: Seq<char>) -> bool {
    m == "text/html"@ || m == "application/json"@ || (m.len() >= 5 && m.skip(m.len() - 5)
        == plus_json())
}

/// Whether an upstream reply whose type is `content_type` is an error page
/// rather than the media: an HTML or JSON type that the media itself does
/// not have.
pub open spec fn content_type_rejected(content_type: Seq<char>, expected: Seq<char>) -> bool {
    media_type(content_type) != media_type(expected) && is_error_media_type(media_type(content_type))
}

fn chars_is(s: &[char], lit: &str) -> (r: bool)
    ensures
        r == (s@ == lit@),
{
    let l = chars_of(lit);
    chars_eq(s, l.as_slice())
}

fn error_media_type(m: &[char]) -> (r: bool)
    ensures
        r == is_error_media_type(m@),
{
    let suffix = chars_of("+json");
    proof {
        reveal_strlit("+json");
        assert(suffix@ =~= plus_json());
    }
    let html = chars_is(m, "text/html");
    let json = chars_is(m, "application/json");
    let plus = has_suffix(m, suffix.as_slice());
    html || json || plus
}

pub fn upstream_content_type_is_rejected(content_type: &str, expected_content_type: &str) -> (r:
    bool)
    ensures
        r == content_type_rejected(content_type@, expected_content_type@),
{
    let m = normalized_content_type(content_type);
    let e = normalized_content_type(expected_content_type);
    let mc = chars_of(m.as_str());
    let ec = chars_of(e.as_str());
    let same = chars_eq(mc.as_slice(), ec.as_slice());
    !same && error_media_type(mc.as_slice())
}

/// The `Content-Type` served for a file extension, already lower-cased.
pub open spec fn content_type_of_ext(ext: Seq<char>) -> &'static str {
    if ext == "mp4"@ || ext == "m4v"@ {
        "video/mp4"
    } else if ext == "mkv"@ {
        "video/x-matroska"
    } else if ext == "webm"@ {
        "video/webm"
    } else if ext == "mov"@ {
        "video/quicktime"
    } else if ext == "avi"@ {
        "video/x-msvideo"
    } else if ext == "mpeg"@ || ext == "mpg"@ {
        "video/mpeg"
    } else if ext == "ts"@ || ext == "m2ts"@ {
        "video/mp2t"
    } else if ext == "ogv"@ {
        "video/ogg"
    } else if ext == "mp3"@ {
        "audio/mpeg"
    } else if ext == "wav"@ {
        "audio/wav"
    } else if ext == "flac"@ {
        "audio/flac"
    } else if ext == "m4a"@ {
        "audio/mp4"
    } else if ext == "aac"@ {
        "audio/aac"
    } else if ext == "ogg"@ {
        "audio/ogg"
    } else if ext == "opus"@ {
        "audio/opus"
    } else if ext == "wma"@ {
        "audio/x-ms-wma"
    } else if ext == "pdf"@ {
        "application/pdf"
    } else if ext == "png"@ {
        "image/png"
    } else if ext == "jpg"@ || ext == "jpeg"@ {
        "image/jpeg"
    } else if ext == "gif"@ {
        "image/gif"
    } else if ext == "webp"@ {
        "image/webp"
    } else if ext == "txt"@ || ext == "c"@ || ext == "cpp"@ || ext == "rs"@ || ext == "py"@ || ext
        == "js"@ || ext == "md"@ || ext == "log"@ {
        "text/plain; charset=utf-8"
    } else if ext == "json"@ {
        "application/json"
    } else if ext == "html"@ || ext == "htm"@ {
        "text/html; charset=utf-8"
    } else if ext == "xls"@ {
        "application/vnd.ms-excel"
    } else if ext == "doc"@ {
        "application/msword"
    } else if ext == "ppt"@ {
        "application/vnd.ms-powerpoint"
    } else if ext == "xlsx"@ {
        "application/vnd.openxmlformats-officedocument.spreadsheetml.sheet"
    } else if ext == "pptx"@ {
        "application/vnd.openxmlformats-officedocument.presentationml.presentation"
    } else {
        "application/octet-stream"
    }
}

/// The type served for a name, by what follows its last `.` in any case:
/// each extension of the table gets its type, an unknown one a plain byte
/// stream.
pub proof fn law_content_type_table(name: Seq<char>)
    ensures
        ({
            let e = unicode_lowercase(after_last(name, '.'));
            let t = content_type_of_ext(e);
            &&& (e == "mp4"@ || e == "m4v"@) ==> t == "video/mp4"
            &&& e == "mkv"@ ==> t == "video/x-matroska"
            &&& e == "webm"@ ==> t == "video/webm"
            &&& e == "mov"@ ==> t == "video/quicktime"
            &&& e == "avi"@ ==> t == "video/x-msvideo"
            &&& (e == "mpeg"@ || e == "mpg"@) ==> t == "video/mpeg"
            &&& (e == "ts"@ || e == "m2ts"@) ==> t == "video/mp2t"
            &&& e == "ogv"@ ==> t == "video/ogg"
            &&& e == "mp3"@ ==> t == "audio/mpeg"
            &&& e == "wav"@ ==> t == "audio/wav"
            &&& e == "flac"@ ==> t == "audio/flac"
            &&& e == "m4a"@ ==> t == "audio/mp4"
            &&& e == "aac"@ ==> t == "audio/aac"
            &&& e == "ogg"@ ==> t == "audio/ogg"
            &&& e == "opus"@ ==> t == "audio/opus"
            &&& e == "wma"@ ==> t == "audio/x-ms-wma"
            &&& e == "pdf"@ ==> t == "application/pdf"
            &&& e == "png"@ ==> t == "image/png"
            &&& (e == "jpg"@ || e == "jpeg"@) ==> t == "image/jpeg"
            &&& e == "gif"@ ==> t == "image/gif"
            &&& e == "webp"@ ==> t == "image/webp"
            &&& (e == "txt"@ || e == "c"@ || e == "cpp"@ || e == "rs"@ || e == "py"@ || e == "js"@ || e == "md"@ || e == "log"@) ==> t == "text/plain; charset=utf-8"
            &&& e == "json"@ ==> t == "application/json"
            &&& (e == "html"@ || e == "htm"@) ==> t == "text/html; charset=utf-8"
            &&& e == "xls"@ ==> t == "application/vnd.ms-excel"
            &&& e == "doc"@ ==> t == "application/msword"
            &&& e == "ppt"@ ==> t == "application/vnd.ms-powerpoint"
            &&& e == "xlsx"@ ==> t == "application/vnd.openxmlformats-officedocument.spreadsheetml.sheet"
            &&& e == "pptx"@ ==> t == "application/vnd.openxmlformats-officedocument.presentationml.presentation"
            &&& e == "zip"@ ==> t == "application/octet-stream"
            &&& e.len() == 0 ==> t == "application/octet-stream"
        }),
{
    let e = unicode_lowercase(after_last(name, '.'));
    reveal_strlit("aac");
    reveal_strlit("avi");
    reveal_strlit("c");
    reveal_strlit("cpp");
    reveal_strlit("doc");
    reveal_strlit("flac");
    reveal_strlit("gif");
    reveal_strlit("htm");
    reveal_strlit("html");
    reveal_strlit("jpeg");
    reveal_strlit("jpg");
    reveal_strlit("js");
    reveal_strlit("json");
    reveal_strlit("log");
    reveal_strlit("m2ts");
    reveal_strlit("m4a");
    reveal_strlit("m4v");
    reveal_strlit("md");
    reveal_strlit("mkv");
    reveal_strlit("mov");
    reveal_strlit("mp3");
    reveal_strlit("mp4");
    reveal_strlit("mpeg");
    reveal_strlit("mpg");
    reveal_strlit("ogg");
    reveal_strlit("ogv");
    reveal_strlit("opus");
    reveal_strlit("pdf");
    reveal_strlit("png");
    reveal_strlit("ppt");
    reveal_strlit("pptx");
    reveal_strlit("py");
    reveal_strlit("rs");
    reveal_strlit("ts");
    reveal_strlit("txt");
    reveal_strlit("wav");
    reveal_strlit("webm");
    reveal_strlit("webp");
    reveal_strlit("wma");
    reveal_strlit("xls");
    reveal_strlit("xlsx");
    reveal_strlit("zip");
    if e == "mp4"@ {
        assert(e.len() == 3 && e[0] == 'm' && e[1] == 'p' && e[2] == '4');
    } else if e == "m4v"@ {
        assert(e.len() == 3 && e[0] == 'm' && e[1] == '4' && e[2] == 'v');
    } else if e == "mkv"@ {
        assert(e.len() == 3 && e[0] == 'm' && e[1] == 'k' && e[2] == 'v');
    } else if e == "webm"@ {
        assert(e.len() == 4 && e[0] == 'w' && e[1] == 'e' && e[2] == 'b' && e[3] == 'm');
    } else if e == "mov"@ {
        assert(e.len() == 3 && e[0] == 'm' && e[1] == 'o' && e[2] == 'v');
    } else if e == "avi"@ {
        assert(e.len() == 3 && e[0] == 'a' && e[1] == 'v' && e[2] == 'i');
    } else if e == "mpeg"@ {
        assert(e.len() == 4 && e[0] == 'm' && e[1] == 'p' && e[2] == 'e' && e[3] == 'g');
    } else if e == "mpg"@ {
        assert(e.len() == 3 && e[0] == 'm' && e[1] == 'p' && e[2] == 'g');
    } else if e == "ts"@ {
        assert(e.len() == 2 && e[0] == 't' && e[1] == 's');
    } else if e == "m2ts"@ {
        assert(e.len() == 4 && e[0] == 'm' && e[1] == '2' && e[2] == 't' && e[3] == 's');
    } else if e == "ogv"@ {
        assert(e.len() == 3 && e[0] == 'o' && e[1] == 'g' && e[2] == 'v');
    } else if e == "mp3"@ {
        assert(e.len() == 3 && e[0] == 'm' && e[1] == 'p' && e[2] == '3');
    } else if e == "wav"@ {
        assert(e.len() == 3 && e[0] == 'w' && e[1] == 'a' && e[2] == 'v');
    } else if e == "flac"@ {
        assert(e.len() == 4 && e[0] == 'f' && e[1] == 'l' && e[2] == 'a' && e[3] == 'c');
    } else if e == "m4a"@ {
        assert(e.len() == 3 && e[0] == 'm' && e[1] == '4' && e[2] == 'a');
    } else if e == "aac"@ {
        assert(e.len() == 3 && e[0] == 'a' && e[1] == 'a' && e[2] == 'c');
    } else if e == "ogg"@ {
        assert(e.len() == 3 && e[0] == 'o' && e[1] == 'g' && e[2] == 'g');
    } else if e == "opus"@ {
        assert(e.len() == 4 && e[0] == 'o' && e[1] == 'p' && e[2] == 'u' && e[3] == 's');
    } else if e == "wma"@ {
        assert(e.len() == 3 && e[0] == 'w' && e[1] == 'm' && e[2] == 'a');
    } else if e == "pdf"@ {
        assert(e.len() == 3 && e[0] == 'p' && e[1] == 'd' && e[2] == 'f');
    } else if e == "png"@ {
        assert(e.len() == 3 && e[0] == 'p' && e[1] == 'n' && e[2] == 'g');
    } else if e == "jpg"@ {
        assert(e.len() == 3 && e[0] == 'j' && e[1] == 'p' && e[2] == 'g');
    } else if e == "jpeg"@ {
        assert(e.len() == 4 && e[0] == 'j' && e[1] == 'p' && e[2] == 'e' && e[3] == 'g');
    } else if e == "gif"@ {
        assert(e.len() == 3 && e[0] == 'g' && e[1] == 'i' && e[2] == 'f');
    } else if e == "webp"@ {
        assert(e.len() == 4 && e[0] == 'w' && e[1] == 'e' && e[2] == 'b' && e[3] == 'p');
    } else if e == "txt"@ {
        assert(e.len() == 3 && e[0] == 't' && e[1] == 'x' && e[2] == 't');
    } else if e == "c"@ {
        assert(e.len() == 1 && e[0] == 'c');
    } else if e == "cpp"@ {
        assert(e.len() == 3 && e[0] == 'c' && e[1] == 'p' && e[2] == 'p');
    } else if e == "rs"@ {
        assert(e.len() == 2 && e[0] == 'r' && e[1] == 's');
    } else if e == "py"@ {
        assert(e.len() == 2 && e[0] == 'p' && e[1] == 'y');
    } else if e == "js"@ {
        assert(e.len() == 2 && e[0] == 'j' && e[1] == 's');
    } else if e == "md"@ {
        assert(e.len() == 2 && e[0] == 'm' && e[1] == 'd');
    } else if e == "log"@ {
        assert(e.len() == 3 && e[0] == 'l' && e[1] == 'o' && e[2] == 'g');
    } else if e == "json"@ {
        assert(e.len() == 4 && e[0] == 'j' && e[1] == 's' && e[2] == 'o' && e[3] == 'n');
    } else if e == "html"@ {
        assert(e.len() == 4 && e[0] == 'h' && e[1] == 't' && e[2] == 'm' && e[3] == 'l');
    } else if e == "htm"@ {
        assert(e.len() == 3 && e[0] == 'h' && e[1] == 't' && e[2] == 'm');
    } else if e == "xls"@ {
        assert(e.len() == 3 && e[0] == 'x' && e[1] == 'l' && e[2] == 's');
    } else if e == "doc"@ {
        assert(e.len() == 3 && e[0] == 'd' && e[1] == 'o' && e[2] == 'c');
    } else if e == "ppt"@ {
        assert(e.len() == 3 && e[0] == 'p' && e[1] == 'p' && e[2] == 't');
    } else if e == "xlsx"@ {
        assert(e.len() == 4 && e[0] == 'x' && e[1] == 'l' && e[2] == 's' && e[3] == 'x');
    } else if e == "pptx"@ {
        assert(e.len() == 4 && e[0] == 'p' && e[1] == 'p' && e[2] == 't' && e[3] == 'x');
    } else if e == "zip"@ {
        assert(e.len() == 3 && e[0] == 'z' && e[1] == 'i' && e[2] == 'p');
    }
}

/// The `Content-Type` for a file name: by what follows its last `.`, in
/// lower case.
pub fn content_type_for_name(name: &str) -> (r: &'static str)
    ensures
        r == content_type_of_ext(unicode_lowercase(after_last(name@, '.'))),
{
    let cs = chars_of(name);
    let ext_chars = after_last_chars(cs.as_slice(), '.');
    let ext_string = crate::text::string_from_chars(ext_chars.as_slice());
    let lower = lowercase(ext_string.as_str());
    let e = chars_of(lower.as_str());
    let x = e.as_slice();
    if chars_is(x, "mp4") || chars_is(x, "m4v") {
        "video/mp4"
    } else if chars_is(x, "mkv") {
        "video/x-matroska"
    } else if chars_is(x, "webm") {
        "video/webm"
    } else if chars_is(x, "mov") {
        "video/quicktime"
    } else if chars_is(x, "avi") {
        "video/x-msvideo"
    } else if chars_is(x, "mpeg") || chars_is(x, "mpg") {
        "video/mpeg"
    } else if chars_is(x, "ts") || chars_is(x, "m2ts") {
        "video/mp2t"
    } else if chars_is(x, "ogv") {
        "video/ogg"
    } else if chars_is(x, "mp3") {
        "audio/mpeg"
    } else if chars_is(x, "wav") {
        "audio/wav"
    } else if chars_is(x, "flac") {
        "audio/flac"
    } else if chars_is(x, "m4a") {
        "audio/mp4"
    } else if chars_is(x, "aac") {
        "audio/aac"
    } else if chars_is(x, "ogg") {
        "audio/ogg"
    } else if chars_is(x, "opus") {
        "audio/opus"
    } else if chars_is(x, "wma") {
        "audio/x-ms-wma"
    } else if chars_is(x, "pdf") {
        "application/pdf"
    } else if chars_is(x, "png") {
        "image/png"
    } else if chars_is(x, "jpg") || chars_is(x, "jpeg") {
        "image/jpeg"
    } else if chars_is(x, "gif") {
        "image/gif"
    } else if chars_is(x, "webp") {
        "image/webp"
    } else if chars_is(x, "txt") || chars_is(x, "c") || chars_is(x, "cpp") || chars_is(x, "rs")
        || chars_is(x, "py") || chars_is(x, "js") || chars_is(x, "md") || chars_is(x, "log") {
        "text/plain; charset=utf-8"
    } else if chars_is(x, "json") {
        "application/json"
    } else if chars_is(x, "html") || chars_is(x, "htm") {
        "text/html; charset=utf-8"
    } else if chars_is(x, "xls") {
        "application/vnd.ms-excel"
    } else if chars_is(x, "doc") {
        "application/msword"
    } else if chars_is(x, "ppt") {
        "application/vnd.ms-powerpoint"
    } else if chars_is(x, "xlsx") {
        "application/vnd.openxmlformats-officedocument.spreadsheetml.sheet"
    } else if chars_is(x, "pptx") {
        "application/vnd.openxmlformats-officedocument.presentationml.presentation"
    } else {
        "application/octet-stream"
    }
}

// ----------------------------------------------------------------------
// The order in which chunk links are warmed
// ----------------------------------------------------------------------

/// `s` lists each of `0..n` exactly once.
pub open spec fn is_index_permutation(s: Seq<usize>, n: nat) -> bool {
    &&& s.len() == n
    &&& s.no_duplicates()
    &&& forall|i: int| 0 <= i < s.len() ==> s[i] < n
}

/// Distinct indices below `n` are at most `n` many.
proof fn lemma_distinct_below(s: Seq<usize>, n: nat)
    requires
        s.no_duplicates(),
        forall|i: int| 0 <= i < s.len() ==> s[i] < n,
    ensures
        s.len() <= n,
    decreases n,
{
    if n == 0 {
        if s.len() > 0 {
            assert(s[0] < 0);
        }
    } else if s.contains((n - 1) as usize) {
        let i = choose|i: int| 0 <= i < s.len() && s[i] == (n - 1) as usize;
        let t = s.remove(i);
        assert forall|a: int, b: int| 0 <= a < t.len() && 0 <= b < t.len() && a != b implies t[a]
            != t[b] by {
            let a2 = if a < i {
                a
            } else {
                a + 1
            };
            let b2 = if b < i {
                b
            } else {
                b + 1
            };
            assert(t[a] == s[a2] && t[b] == s[b2]);
        }
        assert forall|a: int| 0 <= a < t.len() implies t[a] < n - 1 by {
            let a2 = if a < i {
                a
            } else {
                a + 1
            };
            assert(t[a] == s[a2]);
            assert(a2 != i);
        }
        lemma_distinct_below(t, (n - 1) as nat);
    } else {
        assert forall|a: int| 0 <= a < s.len() implies s[a] < n - 1 by {
            if s[a] == n - 1 {
                assert(s.contains((n - 1) as usize));
            }
        }
        lemma_distinct_below(s, (n - 1) as nat);
    }
}

/// `k` lies strictly inside the interval `q`.
pub open spec fn strictly_inside(q: (usize, usize), k: int) -> bool {
    q.0 < k < q.1
}

/// Adds `index` to `order` unless it is out of range or already there.
fn push_unique(index: usize, order: &mut Vec<usize>, seen: &mut Vec<bool>)
    requires
        forall|k: int| 0 <= k < old(seen)@.len() ==> (old(seen)@[k] <==> old(order)@.contains(
            k as usize,
        )),
        old(order)@.no_duplicates(),
        forall|i: int| 0 <= i < old(order)@.len() ==> old(order)@[i] < old(seen)@.len(),
    ensures
        final(seen)@.len() == old(seen)@.len(),
        forall|k: int| 0 <= k < final(seen)@.len() ==> (final(seen)@[k] <==> final(order)@.contains(
            k as usize,
        )),
        final(order)@.no_duplicates(),
        forall|i: int| 0 <= i < final(order)@.len() ==> final(order)@[i] < final(seen)@.len(),
        final(order)@ == (if index < old(seen)@.len() && !old(seen)@[index as int] {
            old(order)@.push(index)
        } else {
            old(order)@
        }),
        forall|k: int| 0 <= k < final(seen)@.len() ==> (final(seen)@[k] <==> (old(seen)@[k] || (k
            == index))),
{
    if index < seen.len() && !seen[index] {
        seen.set(index, true);
        order.push(index);
        proof {
            assert forall|k: int| 0 <= k < seen@.len() implies (seen@[k] <==> order@.contains(
                k as usize,
            )) by {
                if k == index {
                    assert(order@[order@.len() - 1] == index);
                } else if old(order)@.contains(k as usize) {
                    let j = choose|j: int| 0 <= j < old(order)@.len() && old(order)@[j] == k as usize;
                    assert(order@[j] == k as usize);
                } else if order@.contains(k as usize) {
                    let j = choose|j: int| 0 <= j < order@.len() && order@[j] == k as usize;
                    if j < old(order)@.len() {
                        assert(old(order)@[j] == k as usize);
                    }
                }
            }
            assert forall|a: int, b: int|
                0 <= a < order@.len() && 0 <= b < order@.len() && a != b implies order@[a]
                != order@[b] by {
                if a == order@.len() - 1 {
                    assert(!old(order)@.contains(index));
                    assert(old(order)@[b] == order@[b]);
                } else if b == order@.len() - 1 {
                    assert(!old(order)@.contains(index));
                    assert(old(order)@[a] == order@[a]);
                }
            }
        }
    }
}

/// The midpoints that halving the intervals of `queue` yields, breadth
/// first: the first interval, when it is wider than one, gives its midpoint
/// and its two halves join the back of the queue; a narrower one gives
/// nothing. `fuel` bounds the steps.
pub open spec fn halving_order(queue: Seq<(usize, usize)>, fuel: nat) -> Seq<usize>
    decreases fuel,
{
    if fuel == 0 || queue.len() == 0 {
        Seq::<usize>::empty()
    } else {
        let (s, e) = queue[0];
        if e > s && e - s > 1 {
            let mid = (s + (e - s) / 2) as usize;
            seq![mid] + halving_order(queue.drop_first().push((s, mid)).push((mid, e)), (fuel - 1) as nat)
        } else {
            halving_order(queue.drop_first(), (fuel - 1) as nat)
        }
    }
}

/// The warm order of `n` chunks: the first, the last and the second, then
/// the midpoints of the halvings of the chunks between the second and the
/// last, breadth first (`2n + 1` steps take the halving to its end).
pub open spec fn warm_order_spec(n: nat) -> Seq<usize> {
    if n == 0 {
        Seq::<usize>::empty()
    } else {
        let prefix = if n == 1 {
            seq![0usize]
        } else if n == 2 {
            seq![0usize, 1usize]
        } else {
            seq![0usize, (n - 1) as usize, 1usize]
        };
        prefix + halving_order(seq![(1usize, (n - 1) as usize)], (2 * n + 1) as nat)
    }
}

/// The order in which the direct links of `chunk_count` chunks are warmed:
/// the first chunk, the last, the second, then the midpoints of ever finer
/// halvings of the timeline, breadth first. Every chunk comes exactly once.
pub fn direct_link_warm_order(chunk_count: usize) -> (r: Vec<usize>)
    ensures
        r@ == warm_order_spec(chunk_count as nat),
        is_index_permutation(r@, chunk_count as nat),
        chunk_count >= 1 ==> r@[0] == 0,
        chunk_count >= 2 ==> r@[1] == chunk_count - 1,
        chunk_count >= 3 ==> r@[2] == 1,
        chunk_count >= 4 ==> r@[3] == 1 + (chunk_count - 2) / 2,
{
    if chunk_count == 0 {
        return Vec::new();
    }
    let n = chunk_count;
    let mut order: Vec<usize> = Vec::new();
    let mut seen: Vec<bool> = Vec::new();
    while seen.len() < n
        invariant
            seen@.len() <= n,
            forall|k: int| 0 <= k < seen@.len() ==> !seen@[k],
        decreases n - seen.len(),
    {
        seen.push(false);
    }
    push_unique(0, &mut order, &mut seen);
    push_unique(n - 1, &mut order, &mut seen);
    push_unique(1, &mut order, &mut seen);
    let ghost prefix = order@;
    proof {
        if n >= 3 {
            assert(prefix =~= seq![0usize, (n - 1) as usize, 1usize]);
        }
        if n == 2 {
            assert(prefix =~= seq![0usize, 1usize]);
        }
        if n == 1 {
            assert(prefix =~= seq![0usize]);
        }
    }
    let mut queue: Vec<(usize, usize)> = Vec::new();
    queue.push((1, n - 1));
    let mut head: usize = 0;
    let ghost init = seq![(1usize, (n - 1) as usize)];
    let ghost mut fuel: nat = (2 * n + 1) as nat;
    proof {
        assert(queue@ =~= init);
        assert(queue@.skip(0) =~= init);
        assert(order@.skip(prefix.len() as int) =~= Seq::<usize>::empty());
        assert(Seq::<usize>::empty() + halving_order(init, fuel) =~= halving_order(init, fuel));
    }
    proof {
        assert forall|k: int| 0 <= k < n implies seen@[k] || exists|j: int|
            head <= j < queue@.len() && #[trigger] strictly_inside(queue@[j], k) by {
            if !seen@[k] {
                assert(strictly_inside(queue@[0], k));
            }
        }
    }
    while head < queue.len()
        invariant
            1 <= n == chunk_count,
            seen@.len() == n,
            head <= queue@.len(),
            forall|k: int| 0 <= k < n ==> (seen@[k] <==> order@.contains(k as usize)),
            order@.no_duplicates(),
            forall|i: int| 0 <= i < order@.len() ==> order@[i] < n,
            order@.len() >= prefix.len(),
            order@.take(prefix.len() as int) == prefix,
            n >= 3 ==> prefix == seq![0usize, (n - 1) as usize, 1usize],
            n == 2 ==> prefix == seq![0usize, 1usize],
            n == 1 ==> prefix == seq![0usize],
            queue@.len() >= 1,
            queue@[0] == (1usize, (n - 1) as usize),
            head == 0 ==> order@.len() == prefix.len(),
            head >= 1 && n >= 4 ==> order@.len() >= 4 && order@[3] == 1 + (n - 2) / 2,
            init == seq![(1usize, (n - 1) as usize)],
            order@.skip(prefix.len() as int) + halving_order(queue@.skip(head as int), fuel) == halving_order(
                init,
                (2 * n + 1) as nat,
            ),
            fuel as int >= 2 * (n as int - order@.len()) + (queue@.len() - head),
            forall|j: int| head <= j < queue@.len() ==> (#[trigger] queue@[j]).1 <= n - 1,
            forall|j: int, k: int|
                head <= j < queue@.len() && #[trigger] strictly_inside(queue@[j], k) ==> !seen@[k],
            forall|j1: int, j2: int, k: int|
                head <= j1 < j2 < queue@.len() && #[trigger] strictly_inside(queue@[j1], k)
                    ==> !#[trigger] strictly_inside(queue@[j2], k),
            forall|k: int|
                0 <= k < n ==> seen@[k] || exists|j: int|
                    head <= j < queue@.len() && #[trigger] strictly_inside(queue@[j], k),
        decreases 2 * (n - order@.len()) + (queue@.len() - head),
    {
        proof {
            lemma_distinct_below(order@, n as nat);
        }
        let (start, end) = queue[head];
        let ghost q = queue@;
        let ghost old_head = head;
        let ghost old_order = order@;
        let ghost old_seen = seen@;
        let ghost old_fuel = fuel;
        proof {
            assert(order@.len() <= n);
            assert(old_fuel > 0);
            assert(q.skip(old_head as int)[0] == (start, end));
            assert(q.skip(old_head as int).drop_first() =~= q.skip(old_head + 1));
            fuel = (old_fuel - 1) as nat;
        }
        head = head + 1;
        if end > start && end - start > 1 {
            let mid = start + (end - start) / 2;
            assert(strictly_inside(q[old_head as int], mid as int));
            push_unique(mid, &mut order, &mut seen);
            queue.push((start, mid));
            queue.push((mid, end));
            proof {
                let qn = queue@;
                assert(qn.len() == q.len() + 2);
                assert(qn[q.len() as int] == (start, mid));
                assert(qn[q.len() as int + 1] == (mid, end));
                assert forall|j: int| head <= j < qn.len() implies (#[trigger] qn[j]).1 <= n - 1 by {
                    if j < q.len() {
                        assert(qn[j] == q[j]);
                    }
                }
                assert forall|j: int, k: int|
                    head <= j < qn.len() && #[trigger] strictly_inside(qn[j], k) implies !seen@[k] by {
                    if j < q.len() {
                        assert(qn[j] == q[j]);
                        assert(!strictly_inside(q[old_head as int], k));
                        assert(k != mid);
                    } else {
                        assert(strictly_inside(q[old_head as int], k));
                        assert(k != mid);
                    }
                }
                assert forall|j1: int, j2: int, k: int|
                    head <= j1 < j2 < qn.len() && #[trigger] strictly_inside(qn[j1], k) implies
                    !#[trigger] strictly_inside(qn[j2], k) by {
                    if j2 < q.len() {
                        assert(qn[j1] == q[j1] && qn[j2] == q[j2]);
                    } else if j1 < q.len() {
                        assert(qn[j1] == q[j1]);
                        assert(!strictly_inside(q[old_head as int], k));
                    }
                }
                assert forall|k: int| 0 <= k < n implies seen@[k] || exists|j: int|
                    head <= j < qn.len() && #[trigger] strictly_inside(qn[j], k) by {
                    if !seen@[k] {
                        assert(!old_seen[k]);
                        let j = choose|j: int|
                            old_head <= j < q.len() && #[trigger] strictly_inside(q[j], k);
                        if j == old_head {
                            if k < mid {
                                assert(strictly_inside(qn[q.len() as int], k));
                            } else {
                                assert(strictly_inside(qn[q.len() as int + 1], k));
                            }
                        } else {
                            assert(qn[j] == q[j]);
                            assert(strictly_inside(qn[j], k));
                        }
                    }
                }
                assert(order@.take(prefix.len() as int) =~= old_order.take(prefix.len() as int));
                if old_head == 0 && n >= 4 {
                    assert(order@[3] == mid);
                }
                assert(!old_seen[mid as int]);
                assert(order@ == old_order.push(mid));
                assert(qn.skip(head as int) =~= q.skip(old_head + 1).push((start, mid)).push((mid, end)));
                assert(halving_order(q.skip(old_head as int), old_fuel) == seq![mid] + halving_order(
                    q.skip(old_head as int).drop_first().push((start, mid)).push((mid, end)),
                    fuel,
                ));
                assert(order@.skip(prefix.len() as int) =~= old_order.skip(prefix.len() as int).push(mid));
                assert(old_order.skip(prefix.len() as int).push(mid) + halving_order(qn.skip(head as int), fuel)
                    =~= old_order.skip(prefix.len() as int) + (seq![mid] + halving_order(qn.skip(head as int), fuel)));
            }
        } else {
            proof {
                assert forall|k: int| 0 <= k < n implies seen@[k] || exists|j: int|
                    head <= j < queue@.len() && #[trigger] strictly_inside(queue@[j], k) by {
                    if !seen@[k] {
                        let j = choose|j: int|
                            old_head <= j < q.len() && #[trigger] strictly_inside(q[j], k);
                        assert(j != old_head);
                    }
                }
                if old_head == 0 {
                    assert(n < 4);
                }
                assert(queue@.skip(head as int) =~= q.skip(old_head + 1));
                assert(halving_order(q.skip(old_head as int), old_fuel) == halving_order(
                    q.skip(old_head as int).drop_first(),
                    fuel,
                ));
            }
        }
    }
    proof {
        lemma_distinct_below(order@, n as nat);
        assert forall|k: int| 0 <= k < n implies #[trigger] order@.contains(k as usize) by {
            assert(seen@[k]);
        }
        lemma_covering_distinct(order@, n as nat);
        assert(queue@.skip(head as int) =~= Seq::<(usize, usize)>::empty());
        assert(order@.skip(prefix.len() as int) + halving_order(queue@.skip(head as int), fuel) =~= order@.skip(
            prefix.len() as int,
        ));
        assert(order@ =~= prefix + order@.skip(prefix.len() as int));
        assert(order@[0] == prefix[0]);
        if n >= 2 {
            assert(order@[1] == prefix[1]);
        }
        if n >= 3 {
            assert(order@[2] == prefix[2]);
        }
    }
    order
}

/// Distinct indices below `n` that include every one of them are exactly `n` many.
proof fn lemma_covering_distinct(s: Seq<usize>, n: nat)
    requires
        s.no_duplicates(),
        forall|i: int| 0 <= i < s.len() ==> s[i] < n,
        forall|k: int| 0 <= k < n ==> #[trigger] s.contains(k as usize),
        n <= usize::MAX,
    ensures
        s.len() == n,
{
    lemma_distinct_below(s, n);
    let idx = Seq::new(n, |k: int| choose|i: int| 0 <= i < s.len() && s[i] == k as usize);
    assert forall|k: int| 0 <= k < n implies 0 <= #[trigger] idx[k] < s.len() && s[idx[k]] == k
        as usize by {
        assert(s.contains(k as usize));
    }
    let idx_u = idx.map_values(|i: int| i as usize);
    assert forall|a: int, b: int| 0 <= a < idx_u.len() && 0 <= b < idx_u.len() && a != b implies
        idx_u[a] != idx_u[b] by {
        assert(s[idx[a]] == a as usize);
        assert(s[idx[b]] == b as usize);
        assert(idx_u[a] == idx[a]);
        assert(idx_u[b] == idx[b]);
    }
    assert forall|a: int| 0 <= a < idx_u.len() implies idx_u[a] < s.len() by {
        assert(0 <= idx[a] < s.len());
        assert(idx_u[a] == idx[a]);
    }
    lemma_distinct_below(idx_u, s.len());
}

// ----------------------------------------------------------------------
// The identity of a file's content
// ----------------------------------------------------------------------

/// A field prefixed with its length in UTF-8 bytes and a `:`.
pub open spec fn counted_field(s: Seq<char>) -> Seq<char> {
    decimal((encode_utf8(s).len() as usize) as nat) + seq![':'] + s
}

/// The key under which a file's resolved links are cached: its cloud id,
/// chunk list, size and checksum, each with its length, and its time.
pub open spec fn source_key_of(n: VfsNode) -> Seq<char> {
    counted_field(n.lanzou_id@) + seq!['|'] + counted_field(n.chunks@) + seq!['|'] + counted_field(
        n.size@,
    ) + seq!['|'] + counted_field(n.md5@) + seq!['|'] + decimal(n.time as nat)
}

proof fn lemma_utf8_longer(s: Seq<char>, t: Seq<char>)
    requires
        t.len() > 0,
    ensures
        encode_utf8(s + t).len() >= encode_utf8(s).len() + 1,
{
    crate::crypto::lemma_encode_utf8_concat(s, t);
    assert(encode_utf8(t).len() >= 1);
}

proof fn lemma_decimals_equal(a: nat, b: nat, x: Seq<char>, y: Seq<char>)
    requires
        decimal(a) + seq![':'] + x == decimal(b) + seq![':'] + y,
    ensures
        a == b,
        x == y,
{
    crate::text::lemma_decimal_digits(a);
    crate::text::lemma_decimal_digits(b);
    crate::text::lemma_decimal_value(a);
    crate::text::lemma_decimal_value(b);
    let da = decimal(a);
    let db = decimal(b);
    let w = da + seq![':'] + x;
    if da.len() < db.len() {
        assert(w[da.len() as int] == ':');
        assert(w[da.len() as int] == db[da.len() as int]);
        assert(crate::text::is_digit_char(db[da.len() as int]));
    } else if db.len() < da.len() {
        assert(w[db.len() as int] == da[db.len() as int]);
        assert((db + seq![':'] + y)[db.len() as int] == ':');
        assert(crate::text::is_digit_char(da[db.len() as int]));
    }
    assert(da =~= w.take(da.len() as int));
    assert(db =~= w.take(db.len() as int));
    assert(x =~= w.skip(da.len() as int + 1));
    assert(y =~= w.skip(db.len() as int + 1));
}

/// Two fields each followed by `|` and a rest: equal texts split alike.
proof fn lemma_counted_split(s1: Seq<char>, r1: Seq<char>, s2: Seq<char>, r2: Seq<char>)
    requires
        counted_field(s1) + seq!['|'] + r1 == counted_field(s2) + seq!['|'] + r2,
        encode_utf8(s1).len() <= usize::MAX,
        encode_utf8(s2).len() <= usize::MAX,
    ensures
        s1 == s2,
        r1 == r2,
{
    let l1 = encode_utf8(s1).len();
    let l2 = encode_utf8(s2).len();
    assert(counted_field(s1) + seq!['|'] + r1 =~= decimal(l1) + seq![':'] + (s1 + seq!['|'] + r1));
    assert(counted_field(s2) + seq!['|'] + r2 =~= decimal(l2) + seq![':'] + (s2 + seq!['|'] + r2));
    lemma_decimals_equal(l1, l2, s1 + seq!['|'] + r1, s2 + seq!['|'] + r2);
    let w = s1 + seq!['|'] + r1;
    if s1.len() < s2.len() {
        assert(s2 =~= s1 + s2.skip(s1.len() as int)) by {
            assert forall|i: int| 0 <= i < s1.len() implies s2[i] == s1[i] by {
                assert(w[i] == s1[i]);
                assert((s2 + seq!['|'] + r2)[i] == s2[i]);
            }
        }
        lemma_utf8_longer(s1, s2.skip(s1.len() as int));
    } else if s2.len() < s1.len() {
        assert(s1 =~= s2 + s1.skip(s2.len() as int)) by {
            assert forall|i: int| 0 <= i < s2.len() implies s1[i] == s2[i] by {
                assert(w[i] == s1[i]);
                assert((s2 + seq!['|'] + r2)[i] == s2[i]);
            }
        }
        lemma_utf8_longer(s2, s1.skip(s2.len() as int));
    }
    assert(s1 =~= w.take(s1.len() as int));
    assert(s2 =~= (s2 + seq!['|'] + r2).take(s2.len() as int));
    assert(r1 =~= w.skip(s1.len() as int + 1));
    assert(r2 =~= (s2 + seq!['|'] + r2).skip(s2.len() as int + 1));
}

/// Cache keys tell contents apart: two nodes get the same key exactly when
/// their cloud id, chunk list, size, checksum and time are the same.
pub proof fn law_source_keys_tell_contents_apart(a: VfsNode, b: VfsNode)
    requires
        encode_utf8(a.lanzou_id@).len() <= usize::MAX,
        encode_utf8(a.chunks@).len() <= usize::MAX,
        encode_utf8(a.size@).len() <= usize::MAX,
        encode_utf8(a.md5@).len() <= usize::MAX,
        encode_utf8(b.lanzou_id@).len() <= usize::MAX,
        encode_utf8(b.chunks@).len() <= usize::MAX,
        encode_utf8(b.size@).len() <= usize::MAX,
        encode_utf8(b.md5@).len() <= usize::MAX,
    ensures
        source_key_of(a) == source_key_of(b) <==> (a.lanzou_id@ == b.lanzou_id@ && a.chunks@ == b.chunks@
            && a.size@ == b.size@ && a.md5@ == b.md5@ && a.time == b.time),
{
    if source_key_of(a) == source_key_of(b) {
        let ra4 = decimal(a.time as nat);
        let rb4 = decimal(b.time as nat);
        let ra3 = counted_field(a.md5@) + seq!['|'] + ra4;
        let rb3 = counted_field(b.md5@) + seq!['|'] + rb4;
        let ra2 = counted_field(a.size@) + seq!['|'] + ra3;
        let rb2 = counted_field(b.size@) + seq!['|'] + rb3;
        let ra1 = counted_field(a.chunks@) + seq!['|'] + ra2;
        let rb1 = counted_field(b.chunks@) + seq!['|'] + rb2;
        assert(source_key_of(a) =~= counted_field(a.lanzou_id@) + seq!['|'] + ra1);
        assert(source_key_of(b) =~= counted_field(b.lanzou_id@) + seq!['|'] + rb1);
        lemma_counted_split(a.lanzou_id@, ra1, b.lanzou_id@, rb1);
        lemma_counted_split(a.chunks@, ra2, b.chunks@, rb2);
        lemma_counted_split(a.size@, ra3, b.size@, rb3);
        lemma_counted_split(a.md5@, ra4, b.md5@, rb4);
        crate::text::lemma_decimal_value(a.time as nat);
        crate::text::lemma_decimal_value(b.time as nat);
    }
}

fn push_counted_field(out: &mut Vec<char>, s: &String)
    ensures
        final(out)@ == old(out)@ + counted_field(s@),
{
    let len = s.as_str().len();
    push_decimal(out, len as u64);
    out.push(':');
    push_str_chars(out, s.as_str());
    proof {
        assert(final(out)@ =~= old(out)@ + counted_field(s@));
    }
}

pub fn media_source_key(node: &VfsNode) -> (r: String)
    ensures
        r@ == source_key_of(*node),
{
    let mut out: Vec<char> = Vec::new();
    push_counted_field(&mut out, &node.lanzou_id);
    out.push('|');
    push_counted_field(&mut out, &node.chunks);
    out.push('|');
    push_counted_field(&mut out, &node.size);
    out.push('|');
    push_counted_field(&mut out, &node.md5);
    out.push('|');
    push_decimal(&mut out, node.time);
    proof {
        assert(out@ =~= source_key_of(*node));
    }
    string_from_chars(out.as_slice())
}

// ----------------------------------------------------------------------
// The cache of resolved media
// ----------------------------------------------------------------------

/// What is known of a file being streamed: the key of the content it was
/// resolved for, its chunk list and size, the share links of its chunks,
/// their password, the direct link of each chunk when one is cached, and
/// when it was last read.
pub struct CachedMedia {
    pub source_key: String,
    pub chunks_str: String,
    pub total_size: u64,
    pub urls: Vec<String>,
    pub chunk_password: Option<String>,
    pub direct_urls: Vec<Option<CachedDirectUrl>>,
    pub last_accessed_at: u64,
}

/// The resolved media by file id.
pub struct MediaCache {
    pub entries: HashMap<u64, CachedMedia>,
}

/// The entry for `id` is there and was resolved for `key`.
pub open spec fn holds_source(c: Map<u64, CachedMedia>, id: u64, key: Seq<char>) -> bool {
    c.contains_key(id) && c[id].source_key@ == key
}

/// The cached direct link of chunk `ci` of the entry for `id`, if any.
pub open spec fn direct_entry(c: Map<u64, CachedMedia>, id: u64, ci: int) -> Option<CachedDirectUrl> {
    if c.contains_key(id) && 0 <= ci < c[id].direct_urls@.len() {
        c[id].direct_urls@[ci]
    } else {
        None
    }
}

/// Chunk `ci` of the entry for `id` has a direct link usable at `now`.
pub open spec fn link_usable(c: Map<u64, CachedMedia>, id: u64, ci: int, now: u64) -> bool {
    match direct_entry(c, id, ci) {
        Some(e) => now < e.expires_at,
        None => false,
    }
}

/// Chunk `ci` of the entry for `id` has the direct link `url` cached.
pub open spec fn link_is(c: Map<u64, CachedMedia>, id: u64, ci: int, url: Seq<char>) -> bool {
    match direct_entry(c, id, ci) {
        Some(e) => e.url@ == url,
        None => false,
    }
}

/// `b` is `a` with only its direct links and access time possibly changed.
pub open spec fn same_media(a: CachedMedia, b: CachedMedia) -> bool {
    &&& a.source_key == b.source_key
    &&& a.chunks_str == b.chunks_str
    &&& a.total_size == b.total_size
    &&& a.urls@ == b.urls@
    &&& a.chunk_password == b.chunk_password
    &&& a.direct_urls@.len() == b.direct_urls@.len()
}

fn copy_direct(e: &Option<CachedDirectUrl>) -> (r: Option<CachedDirectUrl>)
    ensures
        r == *e,
{
    match e {
        Some(d) => Some(CachedDirectUrl { url: d.url.clone(), refresh_at: d.refresh_at, expires_at: d.expires_at }),
        None => None,
    }
}

fn copy_strings(v: &Vec<String>) -> (r: Vec<String>)
    ensures
        r@ == v@,
{
    let mut out: Vec<String> = Vec::new();
    let mut i: usize = 0;
    while i < v.len()
        invariant
            i <= v@.len(),
            out@ == v@.take(i as int),
        decreases v.len() - i,
    {
        out.push(v[i].clone());
        i = i + 1;
        proof {
            assert(out@ =~= v@.take(i as int));
        }
    }
    proof {
        assert(v@.take(i as int) =~= v@);
    }
    out
}

fn copy_directs(v: &Vec<Option<CachedDirectUrl>>) -> (r: Vec<Option<CachedDirectUrl>>)
    ensures
        r@ == v@,
{
    let mut out: Vec<Option<CachedDirectUrl>> = Vec::new();
    let mut i: usize = 0;
    while i < v.len()
        invariant
            i <= v@.len(),
            out@ == v@.take(i as int),
        decreases v.len() - i,
    {
        out.push(copy_direct(&v[i]));
        i = i + 1;
        proof {
            assert(out@ =~= v@.take(i as int));
        }
    }
    proof {
        assert(v@.take(i as int) =~= v@);
    }
    out
}

impl CachedMedia {
    /// A field-by-field copy.
    pub fn duplicate(&self) -> (r: CachedMedia)
        ensures
            r.source_key == self.source_key,
            r.chunks_str == self.chunks_str,
            r.total_size == self.total_size,
            r.urls@ == self.urls@,
            r.chunk_password == self.chunk_password,
            r.direct_urls@ == self.direct_urls@,
            r.last_accessed_at == self.last_accessed_at,
    {
        CachedMedia {
            source_key: self.source_key.clone(),
            chunks_str: self.chunks_str.clone(),
            total_size: self.total_size,
            urls: copy_strings(&self.urls),
            chunk_password: match &self.chunk_password {
                Some(p) => Some(p.clone()),
                None => None,
            },
            direct_urls: copy_directs(&self.direct_urls),
            last_accessed_at: self.last_accessed_at,
        }
    }
}

/// What the cache gives back of a stored link: once `store_direct_url` has
/// stored a link resolved at `now` for chunk `ci` of the media resolved for
/// `key` (turning `before` into `after`), the cache holds that link for that
/// media, serves it at every instant before it expires, and does not call
/// for its refresh before its refresh time.
pub proof fn law_stored_link_is_served(
    before: Map<u64, CachedMedia>,
    after: Map<u64, CachedMedia>,
    id: u64,
    key: Seq<char>,
    ci: int,
    url: String,
    now: u64,
    t: u64,
)
    requires
        holds_source(before, id, key),
        0 <= ci < before[id].direct_urls@.len(),
        now + DIRECT_LINK_TTL_MS <= u64::MAX,
        after.dom() == before.dom(),
        same_media(before[id], after[id]),
        after[id].direct_urls@ == before[id].direct_urls@.update(
            ci,
            Some(
                CachedDirectUrl {
                    url,
                    refresh_at: (now + DIRECT_LINK_REFRESH_AFTER_MS) as u64,
                    expires_at: (now + DIRECT_LINK_TTL_MS) as u64,
                },
            ),
        ),
    ensures
        holds_source(after, id, key),
        link_is(after, id, ci, url@),
        t < now + DIRECT_LINK_TTL_MS ==> link_usable(after, id, ci, t),
        t < now + DIRECT_LINK_REFRESH_AFTER_MS ==> (direct_entry(after, id, ci) matches Some(e) && t < e.refresh_at),
{
}

impl MediaCache {
    pub fn new() -> (r: Self)
        ensures
            r.entries@ == Map::<u64, CachedMedia>::empty(),
    {
        MediaCache { entries: HashMap::new() }
    }

    /// Records the media resolved for `vfs_id`, replacing what was there.
    pub fn insert_media(&mut self, vfs_id: u64, media: CachedMedia)
        ensures
            final(self).entries@ == old(self).entries@.insert(vfs_id, media),
    {
        self.entries.insert(vfs_id, media);
    }

    /// Forgets the media of `vfs_id`.
    pub fn remove_media(&mut self, vfs_id: u64)
        ensures
            final(self).entries@ == old(self).entries@.remove(vfs_id),
    {
        self.entries.remove(&vfs_id);
    }

    pub fn cache_contains_source(&self, vfs_id: u64, source_key: &str) -> (r: bool)
        ensures
            r == holds_source(self.entries@, vfs_id, source_key@),
    {
        match self.entries.get(&vfs_id) {
            Some(m) => crate::text::str_eq(m.source_key.as_str(), source_key),
            None => false,
        }
    }

    /// The direct link of a chunk of the media resolved for `source_key`,
    /// while it is usable at `now`.
    pub fn cached_direct_url(&self, vfs_id: u64, source_key: &str, chunk_index: usize, now: u64) -> (r:
        Option<String>)
        ensures
            match r {
                Some(u) => holds_source(self.entries@, vfs_id, source_key@) && link_usable(
                    self.entries@,
                    vfs_id,
                    chunk_index as int,
                    now,
                ) && link_is(self.entries@, vfs_id, chunk_index as int, u@),
                None => !holds_source(self.entries@, vfs_id, source_key@) || !link_usable(
                    self.entries@,
                    vfs_id,
                    chunk_index as int,
                    now,
                ),
            },
    {
        match self.entries.get(&vfs_id) {
            None => None,
            Some(m) => {
                if !crate::text::str_eq(m.source_key.as_str(), source_key) {
                    return None;
                }
                if chunk_index >= m.direct_urls.len() {
                    return None;
                }
                match &m.direct_urls[chunk_index] {
                    Some(e) => if e.is_usable_at(now) {
                        Some(e.url.clone())
                    } else {
                        None
                    },
                    None => None,
                }
            },
        }
    }

    /// Whether the direct link of a chunk is missing or due for a refresh at `now`.
    pub fn direct_url_needs_refresh(&self, vfs_id: u64, source_key: &str, chunk_index: usize, now: u64) -> (r:
        bool)
        ensures
            r == (!holds_source(self.entries@, vfs_id, source_key@) || match direct_entry(
                self.entries@,
                vfs_id,
                chunk_index as int,
            ) {
                Some(e) => now >= e.refresh_at,
                None => true,
            }),
    {
        match self.entries.get(&vfs_id) {
            None => true,
            Some(m) => {
                if !crate::text::str_eq(m.source_key.as_str(), source_key) {
                    return true;
                }
                if chunk_index >= m.direct_urls.len() {
                    return true;
                }
                match &m.direct_urls[chunk_index] {
                    Some(e) => e.needs_refresh_at(now),
                    None => true,
                }
            },
        }
    }

    /// Caches a freshly resolved direct link for a chunk, if the media is
    /// still the one resolved for `source_key`.
    pub fn store_direct_url(&mut self, vfs_id: u64, source_key: &str, chunk_index: usize, url: String, now: u64)
        requires
            now + DIRECT_LINK_TTL_MS <= u64::MAX,
        ensures
            if holds_source(old(self).entries@, vfs_id, source_key@) && chunk_index < old(self).entries@[vfs_id].direct_urls@.len() {
                &&& final(self).entries@.dom() == old(self).entries@.dom()
                &&& forall|id: u64| id != vfs_id && old(self).entries@.contains_key(id) ==> final(self).entries@[id] == old(self).entries@[id]
                &&& same_media(old(self).entries@[vfs_id], final(self).entries@[vfs_id])
                &&& final(self).entries@[vfs_id].last_accessed_at == old(self).entries@[vfs_id].last_accessed_at
                &&& final(self).entries@[vfs_id].direct_urls@ == old(self).entries@[vfs_id].direct_urls@.update(
                    chunk_index as int,
                    Some(
                        CachedDirectUrl {
                            url,
                            refresh_at: (now + DIRECT_LINK_REFRESH_AFTER_MS) as u64,
                            expires_at: (now + DIRECT_LINK_TTL_MS) as u64,
                        },
                    ),
                )
            } else {
                final(self).entries@ == old(self).entries@
            },
    {
        let taken = self.entries.remove(&vfs_id);
        match taken {
            None => {},
            Some(mut m) => {
                if crate::text::str_eq(m.source_key.as_str(), source_key) && chunk_index < m.direct_urls.len() {
                    m.direct_urls.set(chunk_index, Some(CachedDirectUrl::new(url, now)));
                }
                self.entries.insert(vfs_id, m);
                proof {
                    assert(self.entries@.dom() =~= old(self).entries@.dom());
                    if !(holds_source(old(self).entries@, vfs_id, source_key@) && chunk_index < old(self).entries@[vfs_id].direct_urls@.len()) {
                        assert(self.entries@ =~= old(self).entries@);
                    }
                }
            },
        }
    }

    /// Drops the cached direct link of a chunk, but only if it is still the
    /// link that failed: a link refreshed meanwhile stays.
    pub fn invalidate_direct_url(&mut self, vfs_id: u64, source_key: &str, chunk_index: usize, failed_url: &str)
        ensures
            if holds_source(old(self).entries@, vfs_id, source_key@) && link_is(
                old(self).entries@,
                vfs_id,
                chunk_index as int,
                failed_url@,
            ) {
                &&& final(self).entries@.dom() == old(self).entries@.dom()
                &&& forall|id: u64| id != vfs_id && old(self).entries@.contains_key(id) ==> final(self).entries@[id] == old(self).entries@[id]
                &&& same_media(old(self).entries@[vfs_id], final(self).entries@[vfs_id])
                &&& final(self).entries@[vfs_id].last_accessed_at == old(self).entries@[vfs_id].last_accessed_at
                &&& final(self).entries@[vfs_id].direct_urls@ == old(self).entries@[vfs_id].direct_urls@.update(
                    chunk_index as int,
                    None,
                )
            } else {
                final(self).entries@ == old(self).entries@
            },
    {
        let taken = self.entries.remove(&vfs_id);
        match taken {
            None => {},
            Some(mut m) => {
                if crate::text::str_eq(m.source_key.as_str(), source_key) && chunk_index < m.direct_urls.len() {
                    let failed = match &m.direct_urls[chunk_index] {
                        Some(e) => crate::text::str_eq(e.url.as_str(), failed_url),
                        None => false,
                    };
                    if failed {
                        m.direct_urls.set(chunk_index, None);
                    }
                }
                self.entries.insert(vfs_id, m);
                proof {
                    assert(self.entries@.dom() =~= old(self).entries@.dom());
                    if !(holds_source(old(self).entries@, vfs_id, source_key@) && link_is(
                        old(self).entries@,
                        vfs_id,
                        chunk_index as int,
                        failed_url@,
                    )) {
                        assert(self.entries@ =~= old(self).entries@);
                    }
                }
            },
        }
    }

    /// Marks the media resolved for `source_key` as read at `now`.
    pub fn touch_cached_media(&mut self, vfs_id: u64, source_key: &str, now: u64)
        ensures
            if holds_source(old(self).entries@, vfs_id, source_key@) {
                &&& final(self).entries@.dom() == old(self).entries@.dom()
                &&& forall|id: u64| id != vfs_id && old(self).entries@.contains_key(id) ==> final(self).entries@[id] == old(self).entries@[id]
                &&& same_media(old(self).entries@[vfs_id], final(self).entries@[vfs_id])
                &&& final(self).entries@[vfs_id].direct_urls == old(self).entries@[vfs_id].direct_urls
                &&& final(self).entries@[vfs_id].last_accessed_at == now
            } else {
                final(self).entries@ == old(self).entries@
            },
    {
        let taken = self.entries.remove(&vfs_id);
        match taken {
            None => {},
            Some(mut m) => {
                if crate::text::str_eq(m.source_key.as_str(), source_key) {
                    m.last_accessed_at = now;
                }
                self.entries.insert(vfs_id, m);
                proof {
                    assert(self.entries@.dom() =~= old(self).entries@.dom());
                    if !holds_source(old(self).entries@, vfs_id, source_key@) {
                        assert(self.entries@ =~= old(self).entries@);
                    }
                }
            },
        }
    }

    /// The media resolved for `source_key` was read less than the active
    /// window before `now`.
    pub fn media_is_active(&self, vfs_id: u64, source_key: &str, now: u64) -> (r: bool)
        ensures
            r == (holds_source(self.entries@, vfs_id, source_key@) && now
                < self.entries@[vfs_id].last_accessed_at + MEDIA_ACTIVE_WINDOW_MS),
    {
        match self.entries.get(&vfs_id) {
            Some(m) => {
                if !crate::text::str_eq(m.source_key.as_str(), source_key) {
                    return false;
                }
                now < m.last_accessed_at || now - m.last_accessed_at < MEDIA_ACTIVE_WINDOW_MS
            },
            None => false,
        }
    }

    /// The media resolved for `source_key`, marked as read at `now`.
    pub fn cached_media(&mut self, vfs_id: u64, source_key: &str, now: u64) -> (r: Option<CachedMedia>)
        ensures
            r is Some <==> holds_source(old(self).entries@, vfs_id, source_key@),
            r matches Some(m) ==> same_media(old(self).entries@[vfs_id], m) && m.direct_urls@
                == old(self).entries@[vfs_id].direct_urls@ && m.last_accessed_at == now,
            if holds_source(old(self).entries@, vfs_id, source_key@) {
                &&& final(self).entries@.dom() == old(self).entries@.dom()
                &&& forall|id: u64| id != vfs_id && old(self).entries@.contains_key(id) ==> final(self).entries@[id] == old(self).entries@[id]
                &&& same_media(old(self).entries@[vfs_id], final(self).entries@[vfs_id])
                &&& final(self).entries@[vfs_id].direct_urls == old(self).entries@[vfs_id].direct_urls
                &&& final(self).entries@[vfs_id].last_accessed_at == now
            } else {
                final(self).entries@ == old(self).entries@
            },
    {
        self.touch_cached_media(vfs_id, source_key, now);
        match self.entries.get(&vfs_id) {
            Some(m) => if crate::text::str_eq(m.source_key.as_str(), source_key) {
                Some(m.duplicate())
            } else {
                None
            },
            None => None,
        }
    }
}

} // verus!
