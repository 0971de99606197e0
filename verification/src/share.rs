//! Share codes: a sealed payload behind `heri://` that names a file's share
//! link, and saving a shared file into one's own tree, as a copy of a file
//! already there when one is, else as a link to the sharer's copy.
use vstd::prelude::*;
use vstd::utf8::encode_utf8;
use crate::crypto::{decrypt_payload, encrypt_payload, opened_payload, sealed_payload, url_safe};
use crate::external::{aead_max_len, name_extension, path_extension, portable_path};
use crate::nav::{ResolveResult, SharePayload};
use crate::text::{chars_of, parse_u64, parse_unsigned, push_all, push_str_chars, string_from_chars,
    has_prefix};
use crate::vfs::{entry_keys, is_entry_list, NodeType, VfsNode, VfsTree};

verus! {

broadcast use vstd::std_specs::hash::group_hash_axioms;

pub open spec fn heri_prefix() -> Seq<char> {
    seq!['h', 'e', 'r', 'i', ':', '/', '/']
}

pub open spec fn alien_prefix() -> Seq<char> {
    seq!['a', 'l', 'i', 'e', 'n', ':', '/', '/']
}

pub open spec fn starts_with(s: Seq<char>, p: Seq<char>) -> bool {
    s.len() >= p.len() && s.take(p.len() as int) == p
}

/// `s` with every occurrence of `p` removed, scanning left to right
/// (`str::replace(p, "")` for a non-empty `p`).
pub open spec fn without_all(s: Seq<char>, p: Seq<char>) -> Seq<char>
    decreases s.len(),
{
    if p.len() == 0 || s.len() == 0 {
        s
    } else if starts_with(s, p) {
        without_all(s.skip(p.len() as int), p)
    } else {
        seq![s[0]] + without_all(s.drop_first(), p)
    }
}

/// Removes every occurrence of a non-empty `p` from `s`.
pub fn remove_all(s: &str, p: &str) -> (r: String)
    requires
        p@.len() > 0,
    ensures
        r@ == without_all(s@, p@),
{
    let cs = chars_of(s);
    let ps = chars_of(p);
    let mut out: Vec<char> = Vec::new();
    let mut i: usize = 0;
    proof {
        assert(cs@.skip(0) =~= cs@);
    }
    while i < cs.len()
        invariant
            i <= cs@.len(),
            cs@ == s@,
            ps@ == p@,
            p@.len() > 0,
            out@ + without_all(cs@.skip(i as int), p@) == without_all(s@, p@),
        decreases cs.len() - i,
    {
        let rest = crate::text::slice_chars(cs.as_slice(), i, cs.len());
        proof {
            assert(rest@ =~= cs@.skip(i as int));
        }
        if has_prefix(rest.as_slice(), ps.as_slice()) {
            proof {
                assert(cs@.skip(i as int).skip(p@.len() as int) =~= cs@.skip(i + p@.len()));
            }
            i = i + ps.len();
        } else {
            let ghost before = out@;
            out.push(cs[i]);
            proof {
                assert(cs@.skip(i as int).drop_first() =~= cs@.skip(i + 1));
                assert(out@ + without_all(cs@.skip(i + 1), p@) =~= before + without_all(cs@.skip(i as int), p@));
            }
            i = i + 1;
        }
    }
    proof {
        assert(cs@.skip(i as int) =~= Seq::<char>::empty());
        assert(out@ =~= without_all(s@, p@));
    }
    string_from_chars(out.as_slice())
}

// ----------------------------------------------------------------------
// Reading a share code
// ----------------------------------------------------------------------

/// The payload text a share code carries under `secret`, or why it carries none.
pub open spec fn share_code_text(secret: Seq<char>, code: Seq<char>) -> Result<Seq<char>, Seq<char>> {
    if !starts_with(code, heri_prefix()) {
        Err("Invalid share code format."@)
    } else {
        opened_payload(secret, without_all(code, heri_prefix()))
    }
}

/// Opens a share code: the JSON text of its payload.
pub fn share_code_json(secret: &str, code: &str) -> (r: Result<String, String>)
    ensures
        match r {
            Ok(s) => share_code_text(secret@, code@) == Ok::<Seq<char>, Seq<char>>(s@),
            Err(e) => share_code_text(secret@, code@) == Err::<Seq<char>, Seq<char>>(e@),
        },
        forall|nonce: Seq<u8>, text: Seq<char>|
            nonce.len() == 12 && encode_utf8(text).len() < aead_max_len() && url_safe(#[trigger] sealed_payload(secret@, nonce, text)) && code@ == heri_prefix()
                + sealed_payload(secret@, nonce, text) ==> (r matches Ok(s) && s@ == text),
{
    let cs = chars_of(code);
    let pre = chars_of("heri://");
    proof {
        reveal_strlit("heri://");
        assert(pre@ =~= heri_prefix());
    }
    if !has_prefix(cs.as_slice(), pre.as_slice()) {
        proof {
            assert forall|nonce: Seq<u8>, text: Seq<char>|
                nonce.len() == 12 && encode_utf8(text).len() < aead_max_len() && url_safe(#[trigger] sealed_payload(secret@, nonce, text)) && code@
                    == heri_prefix() + sealed_payload(secret@, nonce, text) implies false by {
                assert(code@.take(7) =~= heri_prefix());
            }
        }
        return Err("Invalid share code format.".to_string());
    }
    let encoded = remove_all(code, "heri://");
    proof {
        assert forall|nonce: Seq<u8>, text: Seq<char>|
            nonce.len() == 12 && encode_utf8(text).len() < aead_max_len() && url_safe(#[trigger] sealed_payload(secret@, nonce, text)) && code@ == heri_prefix()
                + sealed_payload(secret@, nonce, text) implies encoded@ == sealed_payload(secret@, nonce, text) by {
            lemma_without_prefix_then_safe(sealed_payload(secret@, nonce, text));
        }
    }
    decrypt_payload(secret, encoded.as_str())
}

/// Taking `heri://` out of a code whose body is URL-safe Base64 leaves the
/// body: the body holds no `:`, so no other occurrence.
proof fn lemma_without_prefix_then_safe(x: Seq<char>)
    requires
        url_safe(x),
    ensures
        without_all(heri_prefix() + x, heri_prefix()) == x,
{
    let p = heri_prefix();
    assert((p + x).take(p.len() as int) =~= p);
    assert((p + x).skip(p.len() as int) =~= x);
    lemma_without_safe(x);
}

proof fn lemma_without_safe(x: Seq<char>)
    requires
        url_safe(x),
    ensures
        without_all(x, heri_prefix()) == x,
    decreases x.len(),
{
    let p = heri_prefix();
    if x.len() > 0 {
        if starts_with(x, p) {
            assert(x[4] == p[4]);
            assert(crate::external::is_base64_url_char(x[4]));
        }
        let d = x.drop_first();
        assert(url_safe(d)) by {
            assert forall|i: int| 0 <= i < d.len() implies crate::external::is_base64_url_char(#[trigger] d[i]) by {
                assert(d[i] == x[i + 1]);
            }
        }
        lemma_without_safe(d);
        assert(seq![x[0]] + d =~= x);
    }
}

/// What a payload shows before it is saved; share codes are made of files only.
pub fn resolve_result_of(payload: &SharePayload) -> (r: ResolveResult)
    ensures
        r.name == payload.n,
        r.size == payload.s,
        r.md5 == payload.m,
        r.chunks == payload.c,
        !r.is_folder,
{
    ResolveResult {
        name: payload.n.clone(),
        size: payload.s.clone(),
        md5: payload.m.clone(),
        chunks: payload.c,
        is_folder: false,
    }
}

// ----------------------------------------------------------------------
// Making a share code
// ----------------------------------------------------------------------

/// A file stored as several chunks: its chunk text is neither `1` nor empty.
pub open spec fn is_chunked_text(chunks: Seq<char>) -> bool {
    chunks != seq!['1'] && chunks.len() > 0
}

pub fn is_chunked(node: &VfsNode) -> (r: bool)
    ensures
        r == is_chunked_text(node.chunks@),
{
    let cs = chars_of(node.chunks.as_str());
    let one = cs.len() == 1 && cs[0] == '1';
    proof {
        if cs@ == seq!['1'] {
            assert(cs@.len() == 1);
        }
        if cs@.len() == 1 && cs@[0] == '1' {
            assert(cs@ =~= seq!['1']);
        }
    }
    !one && cs.len() > 0
}

/// What a node's share code is before the cloud is asked: folders cannot be
/// shared; a file that is itself a link to someone's share already carries
/// its payload; any other file needs its share link (`Ok(None)`).
pub open spec fn share_precheck_spec(n: VfsNode) -> Result<Option<Seq<char>>, Seq<char>> {
    if n.node_type == NodeType::Directory {
        Err("Renting whole folders is not currently supported."@)
    } else if starts_with(n.lanzou_id@, alien_prefix()) {
        Ok(Some(heri_prefix() + without_all(n.lanzou_id@, alien_prefix())))
    } else {
        Ok(None)
    }
}

pub fn share_precheck(node: &VfsNode) -> (r: Result<Option<String>, String>)
    ensures
        match r {
            Ok(Some(c)) => share_precheck_spec(*node) == Ok::<Option<Seq<char>>, Seq<char>>(Some(c@)),
            Ok(None) => share_precheck_spec(*node) == Ok::<Option<Seq<char>>, Seq<char>>(None),
            Err(e) => share_precheck_spec(*node) == Err::<Option<Seq<char>>, Seq<char>>(e@),
        },
{
    match node.node_type {
        NodeType::Directory => {
            return Err("Renting whole folders is not currently supported.".to_string());
        },
        NodeType::File => {},
    }
    let cs = chars_of(node.lanzou_id.as_str());
    let pre = chars_of("alien://");
    proof {
        reveal_strlit("alien://");
        assert(pre@ =~= alien_prefix());
    }
    if has_prefix(cs.as_slice(), pre.as_slice()) {
        let body = remove_all(node.lanzou_id.as_str(), "alien://");
        let mut out: Vec<char> = chars_of("heri://");
        push_str_chars(&mut out, body.as_str());
        proof {
            reveal_strlit("heri://");
            assert(out@ =~= heri_prefix() + without_all(node.lanzou_id@, alien_prefix()));
        }
        Ok(Some(string_from_chars(out.as_slice())))
    } else {
        Ok(None)
    }
}

/// What the cloud answered about a share: its full link when it gives one,
/// else the host and file id to join, and the password.
pub struct ShareInfo {
    pub new_url: Option<String>,
    pub is_newd: Option<String>,
    pub f_id: Option<String>,
    pub pwd: Option<String>,
}

pub open spec fn opt_text(o: Option<String>) -> Seq<char> {
    match o {
        Some(s) => s@,
        None => Seq::<char>::empty(),
    }
}

/// The share link of an answer: its full link, else host `/` file id.
pub open spec fn share_url_of(info: ShareInfo) -> Seq<char> {
    match info.new_url {
        Some(u) => u@,
        None => opt_text(info.is_newd) + seq!['/'] + opt_text(info.f_id),
    }
}

/// A chunk count read from its text, 1 when it is not a number.
pub open spec fn chunk_count_of(chunks: Seq<char>) -> u32 {
    match parse_unsigned(chunks, 10, u32::MAX as nat) {
        Some(v) => v as u32,
        None => 1,
    }
}

fn opt_string(o: &Option<String>) -> (r: String)
    ensures
        r@ == opt_text(*o),
{
    match o {
        Some(s) => s.clone(),
        None => String::new(),
    }
}

/// The share link of the cloud's answer: its full link, else host `/` file id.
pub fn share_url(info: &ShareInfo) -> (r: String)
    ensures
        r@ == share_url_of(*info),
{
    match &info.new_url {
        Some(u) => u.clone(),
        None => {
            let mut out: Vec<char> = chars_of(opt_string(&info.is_newd).as_str());
            out.push('/');
            push_str_chars(&mut out, opt_string(&info.f_id).as_str());
            string_from_chars(out.as_slice())
        },
    }
}

/// The payload of a file's share code, from the cloud's answer; there is
/// none when the answer holds no usable link.
pub fn share_payload_for(node: &VfsNode, info: &ShareInfo) -> (r: Result<SharePayload, String>)
    ensures
        ({
            let url = share_url_of(*info);
            if url.len() == 0 || url == seq!['/'] {
                r matches Err(e) && e@ == "Could not generate Lanzou link"@
            } else {
                r matches Ok(p) && p.n == node.name && p.m == node.md5 && p.s == node.size && p.c
                    == chunk_count_of(node.chunks@) && p.l@ == url && p.p@ == opt_text(info.pwd)
            }
        }),
{
    let url = share_url(info);
    let uc = chars_of(url.as_str());
    if uc.len() == 0 || (uc.len() == 1 && uc[0] == '/') {
        proof {
            if uc@.len() == 1 {
                assert(uc@ =~= seq!['/']);
            }
        }
        return Err("Could not generate Lanzou link".to_string());
    }
    proof {
        if url@ == seq!['/'] {
            assert(uc@.len() == 1);
        }
    }
    let cc = chars_of(node.chunks.as_str());
    let c: u32 = match crate::text::parse_radix(cc.as_slice(), 10, 0xffff_ffff) {
        Some(v) => v as u32,
        None => 1,
    };
    Ok(SharePayload {
        n: node.name.clone(),
        m: node.md5.clone(),
        s: node.size.clone(),
        c,
        l: url,
        p: opt_string(&info.pwd),
    })
}

/// The share code of a payload's JSON text: `heri://` and the sealed text.
pub fn share_code_of(secret: &str, json: &str) -> (r: String)
    requires
        encode_utf8(json@).len() < aead_max_len(),
    ensures
        exists|nonce: Seq<u8>| nonce.len() == 12 && r@ == heri_prefix() + #[trigger] sealed_payload(secret@, nonce, json@)
            && url_safe(sealed_payload(secret@, nonce, json@)),
{
    let sealed = encrypt_payload(secret, json);
    let mut out: Vec<char> = chars_of("heri://");
    push_str_chars(&mut out, sealed.as_str());
    proof {
        reveal_strlit("heri://");
        let nonce = choose|nonce: Seq<u8>| nonce.len() == 12 && sealed@ == #[trigger] sealed_payload(secret@, nonce, json@);
        assert(out@ =~= heri_prefix() + sealed_payload(secret@, nonce, json@));
    }
    string_from_chars(out.as_slice())
}

// ----------------------------------------------------------------------
// Saving a shared file
// ----------------------------------------------------------------------

pub open spec fn is_live(n: VfsNode) -> bool {
    !n.is_deleted && !n.is_trashed
}

/// A live node in `target_pid` with the payload's checksum.
pub open spec fn already_in(m: Map<u64, VfsNode>, target_pid: u64, md5: Seq<char>, k: u64) -> bool {
    m.contains_key(k) && m[k].pid == target_pid && m[k].md5@ == md5 && is_live(m[k])
}

/// A live file of one's own with the payload's checksum.
pub open spec fn own_copy(m: Map<u64, VfsNode>, md5: Seq<char>, k: u64) -> bool {
    m.contains_key(k) && m[k].md5@ == md5 && m[k].node_type == NodeType::File && is_live(m[k])
        && !starts_with(m[k].lanzou_id@, alien_prefix())
}

/// `after` is `before` with one more file: id `id` in `pid`, with these
/// fields, stamped `now`.
pub open spec fn added_file(
    before: VfsTree,
    after: VfsTree,
    pid: u64,
    name: Seq<char>,
    lanzou_id: Seq<char>,
    size: Seq<char>,
    md5: Seq<char>,
    ext: Seq<char>,
    chunks: u32,
    now: u64,
) -> bool {
    let id = before.next_id;
    &&& after.next_id == before.next_id + 1
    &&& after.nodes@.dom() == before.nodes@.dom().insert(id)
    &&& forall|k: u64| #[trigger] before.nodes@.contains_key(k) && k != id ==> after.nodes@[k] == before.nodes@[k]
    &&& after.nodes@[id].node_type == NodeType::File
    &&& after.nodes@[id].id == id
    &&& after.nodes@[id].pid == pid
    &&& after.nodes@[id].name@ == name
    &&& after.nodes@[id].lanzou_id@ == lanzou_id
    &&& after.nodes@[id].size@ == size
    &&& after.nodes@[id].md5@ == md5
    &&& after.nodes@[id].ext@ == ext
    &&& after.nodes@[id].chunks@ == crate::vfs::chunk_text(chunks)
    &&& after.nodes@[id].time == now
    &&& is_live(after.nodes@[id])
    &&& after.last_modified == now
}

/// The cloud id and chunk count of a live file of one's own with checksum
/// `md5`, any one of them; none when there is no such file.
pub fn find_own_copy(tree: &VfsTree, md5: &str) -> (r: Option<(String, String)>)
    ensures
        r is None <==> !(exists|k: u64| #[trigger] own_copy(tree.nodes@, md5@, k)),
        r matches Some((lid, ch)) ==> exists|k: u64|
            #[trigger] own_copy(tree.nodes@, md5@, k) && tree.nodes@[k].lanzou_id@ == lid@
                && tree.nodes@[k].chunks@ == ch@,
{
    let ghost m = tree.nodes@;
    let es = tree.entries();
    let md5c = chars_of(md5);
    let alien = chars_of("alien://");
    proof {
        reveal_strlit("alien://");
        assert(alien@ =~= alien_prefix());
    }
    let mut j: usize = 0;
    while j < es.len()
        invariant
            j <= es@.len(),
            m == tree.nodes@,
            is_entry_list(es@, m),
            md5c@ == md5@,
            alien@ == alien_prefix(),
            forall|jj: int| 0 <= jj < j ==> !own_copy(m, md5@, (#[trigger] es@[jj]).0),
        decreases es.len() - j,
    {
        let e = &es[j];
        proof {
            assert(es@[j as int].1 == m[es@[j as int].0]);
            assert(entry_keys(es@)[j as int] == es@[j as int].0);
            assert(entry_keys(es@).contains(es@[j as int].0));
        }
        let same = crate::text::chars_eq(chars_of(e.1.md5.as_str()).as_slice(), md5c.as_slice());
        let is_file = match e.1.node_type {
            NodeType::File => true,
            NodeType::Directory => false,
        };
        let is_alien = has_prefix(chars_of(e.1.lanzou_id.as_str()).as_slice(), alien.as_slice());
        if same && is_file && !e.1.is_deleted && !e.1.is_trashed && !is_alien {
            proof {
                assert(own_copy(m, md5@, e.0));
            }
            return Some((e.1.lanzou_id.clone(), e.1.chunks.clone()));
        }
        j = j + 1;
    }
    proof {
        assert forall|k: u64| !(#[trigger] own_copy(m, md5@, k)) by {
            if own_copy(m, md5@, k) {
                assert(entry_keys(es@).contains(k));
                let jj = choose|jj: int| 0 <= jj < entry_keys(es@).len() && entry_keys(es@)[jj] == k;
                assert(es@[jj].0 == k);
            }
        }
    }
    None
}

/// The extension a saved shared file gets: that of the name's last piece,
/// wherever the name reads the same on every platform.
pub open spec fn shared_ext(name: Seq<char>, ext: Seq<char>) -> bool {
    portable_path(name) ==> ext == name_extension(crate::text::after_last(name, '/'))
}

/// Saves a shared file into folder `target_pid` at time `now`. A file with
/// the same checksum already there makes it a no-op; else a file of one's
/// own with that checksum is copied (any one of them); else the new file
/// points at the sharer's copy through `alien://` and the code's payload.
pub fn rent_shared(tree: &mut VfsTree, payload: &SharePayload, encoded: &str, target_pid: u64, now: u64)
    requires
        old(tree).next_id < u64::MAX,
    ensures
        ({
            let m = old(tree).nodes@;
            if exists|k: u64| #[trigger] already_in(m, target_pid, payload.m@, k) {
                *final(tree) == *old(tree)
            } else if exists|k: u64| #[trigger] own_copy(m, payload.m@, k) {
                exists|k: u64, ext: Seq<char>| #[trigger] own_copy(m, payload.m@, k) && #[trigger] shared_ext(payload.n@, ext) && added_file(
                    *old(tree),
                    *final(tree),
                    target_pid,
                    payload.n@,
                    m[k].lanzou_id@,
                    payload.s@,
                    payload.m@,
                    ext,
                    chunk_count_of(m[k].chunks@),
                    now,
                )
            } else {
                exists|ext: Seq<char>| #[trigger] shared_ext(payload.n@, ext) && added_file(
                    *old(tree),
                    *final(tree),
                    target_pid,
                    payload.n@,
                    alien_prefix() + encoded@,
                    payload.s@,
                    payload.m@,
                    ext,
                    payload.c,
                    now,
                )
            }
        }),
{
    let ghost m = tree.nodes@;
    let es = tree.entries();
    let md5 = chars_of(payload.m.as_str());
    let alien = chars_of("alien://");
    proof {
        reveal_strlit("alien://");
        assert(alien@ =~= alien_prefix());
    }
    let mut i: usize = 0;
    while i < es.len()
        invariant
            i <= es@.len(),
            m == tree.nodes@,
            is_entry_list(es@, m),
            md5@ == payload.m@,
            forall|j: int| 0 <= j < i ==> !already_in(m, target_pid, payload.m@, (#[trigger] es@[j]).0),
        decreases es.len() - i,
    {
        let e = &es[i];
        proof {
            assert(es@[i as int].1 == m[es@[i as int].0]);
            assert(entry_keys(es@)[i as int] == es@[i as int].0);
            assert(entry_keys(es@).contains(es@[i as int].0));
        }
        let same = crate::text::chars_eq(chars_of(e.1.md5.as_str()).as_slice(), md5.as_slice());
        if e.1.pid == target_pid && same && !e.1.is_deleted && !e.1.is_trashed {
            proof {
                assert(already_in(m, target_pid, payload.m@, e.0));
            }
            return;
        }
        i = i + 1;
    }
    proof {
        assert forall|k: u64| !(#[trigger] already_in(m, target_pid, payload.m@, k)) by {
            if already_in(m, target_pid, payload.m@, k) {
                assert(entry_keys(es@).contains(k));
                let j = choose|j: int| 0 <= j < entry_keys(es@).len() && entry_keys(es@)[j] == k;
                assert(es@[j].0 == k);
            }
        }
    }
    let ext = path_extension(payload.n.as_str());
    let copy = find_own_copy(tree, payload.m.as_str());
    match copy {
        Some((lid, ch)) => {
            let cc = chars_of(ch.as_str());
            let chunks: u32 = match crate::text::parse_radix(cc.as_slice(), 10, 0xffff_ffff) {
                Some(v) => v as u32,
                None => 1,
            };
            tree.add_file(target_pid, payload.n.as_str(), lid.as_str(), payload.s.as_str(), payload.m.as_str(), ext.as_str(), chunks, now);
            proof {
                let k = choose|k: u64| #[trigger] own_copy(m, payload.m@, k) && m[k].lanzou_id@ == lid@ && m[k].chunks@ == ch@;
                assert(own_copy(m, payload.m@, k));
                assert(shared_ext(payload.n@, ext@));
            }
        },
        None => {
            let mut lid: Vec<char> = chars_of("alien://");
            push_str_chars(&mut lid, encoded);
            let lid_s = string_from_chars(lid.as_slice());
            tree.add_file(target_pid, payload.n.as_str(), lid_s.as_str(), payload.s.as_str(), payload.m.as_str(), ext.as_str(), payload.c, now);
            proof {
                assert(shared_ext(payload.n@, ext@));
            }
        },
    }
}

} // verus!
