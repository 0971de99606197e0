//! The decisions of the streaming proxy between a media player and the
//! cloud: how a file's resolved metadata becomes a cache entry, what the
//! reply to a request says, which upstream replies are taken, and how much
//! of each packet is passed on. Sending and receiving are left to the caller.
use vstd::prelude::*;
use crate::stream::{byte_range, opt_str_view, parse_byte_range, CachedDirectUrl, CachedMedia,
    DIRECT_LINK_TTL_MS, content_type_rejected, upstream_content_type_is_rejected};
use crate::text::{chars_of, decimal, parse_radix, parse_unsigned, push_decimal, push_str_chars,
    string_from_chars};

verus! {

// ----------------------------------------------------------------------
// Resolving a file's metadata
// ----------------------------------------------------------------------

/// A file kept whole: its chunk text is `1` or empty.
pub open spec fn is_single_text(chunks: Seq<char>) -> bool {
    chunks == seq!['1'] || chunks.len() == 0
}

pub fn is_single(chunks_str: &str) -> (r: bool)
    ensures
        r == is_single_text(chunks_str@),
{
    let cs = chars_of(chunks_str);
    proof {
        if chunks_str@ == seq!['1'] {
            assert(cs@.len() == 1);
        }
        if cs@.len() == 1 && cs@[0] == '1' {
            assert(cs@ =~= seq!['1']);
        }
    }
    cs.len() == 0 || (cs.len() == 1 && cs[0] == '1')
}

/// The number of chunks of a chunked file: its chunk text as a number
/// above one, or the error naming the text and the file.
pub open spec fn expected_chunks_spec(chunks: Seq<char>, vfs_id: u64) -> Result<nat, Seq<char>> {
    match parse_unsigned(chunks, 10, usize::MAX as nat) {
        Some(n) => if n > 1 {
            Ok(n)
        } else {
            Err("Invalid chunk count '"@ + chunks + "' for VFS node "@ + decimal(vfs_id as nat))
        },
        None => Err("Invalid chunk count '"@ + chunks + "' for VFS node "@ + decimal(vfs_id as nat)),
    }
}

pub fn expected_chunk_count(chunks_str: &str, vfs_id: u64) -> (r: Result<usize, String>)
    ensures
        match r {
            Ok(n) => expected_chunks_spec(chunks_str@, vfs_id) == Ok::<nat, Seq<char>>(n as nat),
            Err(e) => expected_chunks_spec(chunks_str@, vfs_id) == Err::<nat, Seq<char>>(e@),
        },
{
    let cs = chars_of(chunks_str);
    let parsed = parse_radix(cs.as_slice(), 10, usize::MAX as u64);
    match parsed {
        Some(n) => if n > 1 {
            return Ok(n as usize);
        },
        None => {},
    }
    let mut out: Vec<char> = chars_of("Invalid chunk count '");
    push_str_chars(&mut out, chunks_str);
    push_str_chars(&mut out, "' for VFS node ");
    push_decimal(&mut out, vfs_id);
    Err(string_from_chars(out.as_slice()))
}

/// The share page of each chunk: the share link's origin, `/`, the chunk's
/// id; an error when a chunk has no id.
pub open spec fn chunk_urls_spec(base: Seq<char>, ids: Seq<Option<Seq<char>>>) -> Result<Seq<Seq<char>>, Seq<char>> {
    if exists|i: int| 0 <= i < ids.len() && (#[trigger] ids[i] is None || ids[i] == Some(Seq::<char>::empty())) {
        Err("Chunk ID missing"@)
    } else {
        Ok(Seq::new(ids.len(), |i: int| base + seq!['/'] + ids[i].unwrap()))
    }
}

pub open spec fn opt_views(v: Seq<Option<String>>) -> Seq<Option<Seq<char>>> {
    v.map_values(|o: Option<String>| match o {
        Some(s) => Some(s@),
        None => None,
    })
}

pub fn chunk_share_urls(base: &str, ids: &Vec<Option<String>>) -> (r: Result<Vec<String>, String>)
    ensures
        match r {
            Ok(v) => chunk_urls_spec(base@, opt_views(ids@)) == Ok::<Seq<Seq<char>>, Seq<char>>(v@.map_values(|x: String| x@)),
            Err(e) => chunk_urls_spec(base@, opt_views(ids@)) == Err::<Seq<Seq<char>>, Seq<char>>(e@),
        },
{
    let ghost iv = opt_views(ids@);
    let mut out: Vec<String> = Vec::new();
    let mut i: usize = 0;
    while i < ids.len()
        invariant
            i <= ids@.len(),
            iv == opt_views(ids@),
            forall|j: int| 0 <= j < i ==> !(#[trigger] iv[j] is None || iv[j] == Some(Seq::<char>::empty())),
            out@.map_values(|x: String| x@) == Seq::new(i as nat, |j: int| base@ + seq!['/'] + iv[j].unwrap()),
        decreases ids.len() - i,
    {
        let id = match &ids[i] {
            Some(s) => s,
            None => {
                proof {
                    assert(iv[i as int] is None);
                }
                return Err("Chunk ID missing".to_string());
            },
        };
        let idc = chars_of(id.as_str());
        if idc.len() == 0 {
            proof {
                assert(iv[i as int] == Some(id@));
                assert(id@ =~= Seq::<char>::empty());
            }
            return Err("Chunk ID missing".to_string());
        }
        proof {
            assert(id@ != Seq::<char>::empty());
        }
        let mut u: Vec<char> = chars_of(base);
        u.push('/');
        push_str_chars(&mut u, id.as_str());
        let ghost before = out@.map_values(|x: String| x@);
        let us = string_from_chars(u.as_slice());
        assert(us@ == base@ + seq!['/'] + id@);
        out.push(us);
        proof {
            assert(out@.map_values(|x: String| x@) =~= before.push(us@));
            assert(iv[i as int] == Some(id@));
            assert(out@.map_values(|x: String| x@) =~= Seq::new((i + 1) as nat, |j: int| base@ + seq!['/'] + iv[j].unwrap()));
        }
        i = i + 1;
    }
    proof {
        assert(Seq::new(i as nat, |j: int| base@ + seq!['/'] + iv[j].unwrap()) =~= Seq::new(iv.len(), |j: int| base@ + seq!['/'] + iv[j].unwrap()));
    }
    Ok(out)
}

/// The cache entry of a file kept whole, resolved at `now`: its share page
/// and its direct link.
pub fn single_media(
    source_key: String,
    chunks_str: String,
    total_size: u64,
    share_url: String,
    password: Option<String>,
    direct_url: String,
    now: u64,
) -> (r: CachedMedia)
    requires
        now + DIRECT_LINK_TTL_MS <= u64::MAX,
    ensures
        r.source_key == source_key,
        r.chunks_str == chunks_str,
        r.total_size == total_size,
        r.urls@ == seq![share_url],
        r.chunk_password == password,
        r.direct_urls@.len() == 1,
        r.direct_urls@[0] matches Some(d) && d.url == direct_url && d.expires_at == now + DIRECT_LINK_TTL_MS,
        r.last_accessed_at == now,
{
    let mut urls: Vec<String> = Vec::new();
    urls.push(share_url);
    let mut direct: Vec<Option<CachedDirectUrl>> = Vec::new();
    direct.push(Some(CachedDirectUrl::new(direct_url, now)));
    CachedMedia {
        source_key,
        chunks_str,
        total_size,
        urls,
        chunk_password: password,
        direct_urls: direct,
        last_accessed_at: now,
    }
}

/// The cache entry of a chunked file, resolved at `now`: the share page of
/// each chunk and no direct link yet.
pub fn chunked_media(
    source_key: String,
    chunks_str: String,
    total_size: u64,
    urls: Vec<String>,
    password: Option<String>,
    now: u64,
) -> (r: CachedMedia)
    ensures
        r.source_key == source_key,
        r.chunks_str == chunks_str,
        r.total_size == total_size,
        r.urls@ == urls@,
        r.chunk_password == password,
        r.direct_urls@.len() == urls@.len(),
        forall|i: int| 0 <= i < r.direct_urls@.len() ==> #[trigger] r.direct_urls@[i] is None,
        r.last_accessed_at == now,
{
    let mut direct: Vec<Option<CachedDirectUrl>> = Vec::new();
    let mut i: usize = 0;
    while i < urls.len()
        invariant
            i <= urls@.len(),
            direct@.len() == i,
            forall|j: int| 0 <= j < i ==> #[trigger] direct@[j] is None,
        decreases urls.len() - i,
    {
        direct.push(None);
        i = i + 1;
    }
    CachedMedia {
        source_key,
        chunks_str,
        total_size,
        urls,
        chunk_password: password,
        direct_urls: direct,
        last_accessed_at: now,
    }
}

/// Metadata resolved for the file's content `resolved_key` may be cached
/// and served only while the file still holds that content: `current_key`
/// is the key of what the file holds now, none when it is gone. Otherwise
/// the request is refused as a conflict, to be retried.
pub fn resolution_is_current(resolved_key: &str, current_key: Option<&str>) -> (r: bool)
    ensures
        r == (match current_key {
            Some(k) => k@ == resolved_key@,
            None => false,
        }),
{
    match current_key {
        Some(k) => crate::text::str_eq(k, resolved_key),
        None => false,
    }
}

// ----------------------------------------------------------------------
// The reply to a request
// ----------------------------------------------------------------------

/// What the proxy answers before any byte is fetched.
pub enum StreamReply {
    /// An empty file: status 204.
    NoContent,
    /// A range that cannot be served: status 416 with this `Content-Range`.
    Unsatisfiable { content_range: String },
    /// Bytes `start..=end`: status 206 with `Content-Range` and the range's
    /// length when a range was asked, else 200 with the file's length.
    Serve { start: u64, end: u64, partial: bool, content_range: Option<String>, content_length: u64 },
}

/// `bytes first-last/total`.
pub open spec fn content_range_text(first: u64, last: u64, total: u64) -> Seq<char> {
    "bytes "@ + decimal(first as nat) + seq!['-'] + decimal(last as nat) + seq!['/'] + decimal(total as nat)
}

/// Plans the reply to a request for a file of `total_size` bytes with the
/// given `Range` header.
pub fn plan_reply(range_header: Option<&str>, total_size: u64) -> (r: StreamReply)
    ensures
        total_size == 0 ==> r is NoContent,
        total_size > 0 && byte_range(opt_str_view(range_header), total_size) is None ==> (r matches StreamReply::Unsatisfiable { content_range } && content_range@ == "bytes */"@ + decimal(total_size as nat)),
        total_size > 0 ==> match byte_range(opt_str_view(range_header), total_size) {
            Some((a, b, p)) => r matches StreamReply::Serve { start, end, partial, content_range, content_length } && start == a && end == b && partial == p
                && (if p {
                    content_range matches Some(cr) && cr@ == content_range_text(a, b, total_size) && content_length == b - a + 1
                } else {
                    content_range is None && content_length == total_size
                }),
            None => r is Unsatisfiable,
        },
{
    if total_size == 0 {
        return StreamReply::NoContent;
    }
    match parse_byte_range(range_header, total_size) {
        Err(_) => {
            let mut out: Vec<char> = chars_of("bytes */");
            push_decimal(&mut out, total_size);
            StreamReply::Unsatisfiable { content_range: string_from_chars(out.as_slice()) }
        },
        Ok((start, end, partial)) => {
            if partial {
                let mut out: Vec<char> = chars_of("bytes ");
                push_decimal(&mut out, start);
                out.push('-');
                push_decimal(&mut out, end);
                out.push('/');
                push_decimal(&mut out, total_size);
                proof {
                    assert(out@ =~= content_range_text(start, end, total_size));
                }
                StreamReply::Serve {
                    start,
                    end,
                    partial,
                    content_range: Some(string_from_chars(out.as_slice())),
                    content_length: end - start + 1,
                }
            } else {
                StreamReply::Serve { start, end, partial, content_range: None, content_length: total_size }
            }
        },
    }
}

// ----------------------------------------------------------------------
// Upstream replies
// ----------------------------------------------------------------------

/// The `Range` header sent upstream for bytes `first..=last`.
pub fn upstream_range(first: u64, last: u64) -> (r: String)
    ensures
        r@ == "bytes="@ + decimal(first as nat) + seq!['-'] + decimal(last as nat),
{
    let mut out: Vec<char> = chars_of("bytes=");
    push_decimal(&mut out, first);
    out.push('-');
    push_decimal(&mut out, last);
    string_from_chars(out.as_slice())
}

/// An upstream reply is taken when it succeeded, honoured the range (a
/// read from the start may come back whole, any other must be partial),
/// and is not an error page in place of the media.
pub open spec fn reply_taken(status: u16, offset: u64, content_type: Seq<char>, expected: Seq<char>) -> bool {
    200 <= status <= 299 && (offset == 0 || status == 206) && !content_type_rejected(content_type, expected)
}

pub fn upstream_reply_taken(status: u16, offset: u64, content_type: &str, expected_content_type: &str) -> (r: bool)
    ensures
        r == reply_taken(status, offset, content_type@, expected_content_type@),
{
    200 <= status && status <= 299 && (offset == 0 || status == 206) && !upstream_content_type_is_rejected(content_type, expected_content_type)
}

/// How much of a packet of `packet_len` bytes is passed on when `wanted`
/// bytes are still owed: all of it, or the part that is owed.
pub fn packet_take(packet_len: u64, wanted: u64) -> (r: u64)
    ensures
        r == (if packet_len < wanted {
            packet_len
        } else {
            wanted
        }),
        r <= wanted,
        r <= packet_len,
{
    if packet_len < wanted {
        packet_len
    } else {
        wanted
    }
}

} // verus!
