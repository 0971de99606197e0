//! Uploads and downloads of whole files: where an upload goes, how a file
//! already held is copied without sending a byte, how a large file is cut
//! into chunks and named, how the finished upload enters the tree, and how
//! a download finds its source, orders a folder's chunks and resumes.
use vstd::prelude::*;
use crate::nav::SharePayload;
use crate::pages::{form_view, FormField};
use crate::share::{alien_prefix, chunk_count_of, find_own_copy, opt_text, own_copy, share_url_of, starts_with,
    ShareInfo};
use crate::text::{chars_eq, chars_of, has_infix, has_prefix, parse_radix};
use crate::vfs::{
    children_of, entry_keys, generations, in_subtree, is_entry_list, tombstoned, NodeType, VfsNode,
    VfsTree,
};

verus! {

broadcast use vstd::std_specs::hash::group_hash_axioms;

// ----------------------------------------------------------------------
// Where an upload goes
// ----------------------------------------------------------------------

/// The cloud folder behind folder `pid` of the tree: the root's for 0 or
/// for an unknown folder.
pub open spec fn upload_folder_of(tree: VfsTree, pid: u64) -> Seq<char> {
    if pid != 0 && tree.nodes@.contains_key(pid) {
        tree.nodes@[pid].lanzou_id@
    } else {
        tree.root_lanzou_id@
    }
}

/// The cloud folder an upload into folder `target_pid` is sent to; the tree
/// is offline when that folder has no cloud id.
pub fn upload_target_folder(tree: &VfsTree, target_pid: u64) -> (r: Result<String, String>)
    ensures
        upload_folder_of(*tree, target_pid).len() > 0 ==> (r matches Ok(f) && f@ == upload_folder_of(
            *tree,
            target_pid,
        )),
        upload_folder_of(*tree, target_pid).len() == 0 ==> (r matches Err(e) && e@ == "VFS Offline"@),
{
    let folder = if target_pid != 0 {
        match tree.nodes.get(&target_pid) {
            Some(n) => n.lanzou_id.clone(),
            None => tree.root_lanzou_id.clone(),
        }
    } else {
        tree.root_lanzou_id.clone()
    };
    if chars_of(folder.as_str()).len() == 0 {
        Err("VFS Offline".to_string())
    } else {
        Ok(folder)
    }
}

// ----------------------------------------------------------------------
// Entering an upload into the tree
// ----------------------------------------------------------------------

/// A node of folder `pid` with checksum `md5` that points at someone
/// else's copy.
pub open spec fn alien_twin(m: Map<u64, VfsNode>, pid: u64, md5: Seq<char>, k: u64) -> bool {
    m.contains_key(k) && m[k].pid == pid && m[k].md5@ == md5 && starts_with(
        m[k].lanzou_id@,
        alien_prefix(),
    )
}

/// `x` lies in the subtree of an alien twin.
pub open spec fn below_alien_twin(m: Map<u64, VfsNode>, pid: u64, md5: Seq<char>, x: u64) -> bool {
    exists|k: u64| #[trigger] alien_twin(m, pid, md5, k) && in_subtree(m, m[k].id, x)
}

/// The table after every alien twin, with all below it, is tombstoned at
/// `now`.
pub open spec fn without_alien_twins(m: Map<u64, VfsNode>, pid: u64, md5: Seq<char>, now: u64) -> Map<
    u64,
    VfsNode,
> {
    Map::new(
        |x: u64| m.contains_key(x),
        |x: u64|
            if below_alien_twin(m, pid, md5, x) {
                tombstoned(m[x], now)
            } else {
                m[x]
            },
    )
}

/// `n` is the live file `id` of folder `pid` with these fields, made at `now`.
pub open spec fn is_new_file(
    n: VfsNode,
    id: u64,
    pid: u64,
    name: Seq<char>,
    lanzou_id: Seq<char>,
    size: Seq<char>,
    md5: Seq<char>,
    ext: Seq<char>,
    chunks: u32,
    now: u64,
) -> bool {
    &&& n.node_type == NodeType::File
    &&& n.id == id
    &&& n.pid == pid
    &&& n.name@ == name
    &&& n.lanzou_id@ == lanzou_id
    &&& n.size@ == size
    &&& n.md5@ == md5
    &&& n.ext@ == ext
    &&& n.chunks@ == crate::vfs::chunk_text(chunks)
    &&& n.time == now
    &&& !n.is_trashed
    &&& !n.is_deleted
}

/// Two tables with the same keys, ids and parents.
pub open spec fn same_shape(a: Map<u64, VfsNode>, b: Map<u64, VfsNode>) -> bool {
    &&& a.dom() == b.dom()
    &&& forall|k: u64| #[trigger] a.contains_key(k) ==> a[k].id == b[k].id && a[k].pid == b[k].pid
}

proof fn lemma_same_shape_generations(a: Map<u64, VfsNode>, b: Map<u64, VfsNode>, t: u64, n: nat)
    requires
        same_shape(a, b),
    ensures
        generations(a, t, n) == generations(b, t, n),
    decreases n,
{
    if n > 0 {
        lemma_same_shape_generations(a, b, t, (n - 1) as nat);
        let r = generations(a, t, (n - 1) as nat);
        assert(children_of(a, r) =~= children_of(b, r)) by {
            assert forall|c: u64| children_of(a, r).contains(c) implies children_of(b, r).contains(c) by {
                let k = choose|k: u64| #[trigger] a.contains_key(k) && r.contains(a[k].pid) && a[k].id == c;
                assert(b.contains_key(k));
            }
            assert forall|c: u64| children_of(b, r).contains(c) implies children_of(a, r).contains(c) by {
                let k = choose|k: u64| #[trigger] b.contains_key(k) && r.contains(b[k].pid) && b[k].id == c;
                assert(a.contains_key(k));
            }
        }
    }
}

/// Tables of the same shape have the same subtrees.
pub proof fn lemma_same_shape_subtree(a: Map<u64, VfsNode>, b: Map<u64, VfsNode>, t: u64, x: u64)
    requires
        same_shape(a, b),
    ensures
        in_subtree(a, t, x) == in_subtree(b, t, x),
{
    if in_subtree(a, t, x) {
        let n = choose|n: nat| #[trigger] generations(a, t, n).contains(x);
        lemma_same_shape_generations(a, b, t, n);
    }
    if in_subtree(b, t, x) {
        let n = choose|n: nat| #[trigger] generations(b, t, n).contains(x);
        lemma_same_shape_generations(a, b, t, n);
    }
}

/// Enters a finished upload into folder `target_pid` at time `now`: every
/// node there with the same checksum that points at someone else's copy is
/// tombstoned, with all below it, and the file is added; returns its id.
pub fn commit_upload(
    tree: &mut VfsTree,
    target_pid: u64,
    name: &str,
    lanzou_id: &str,
    size: &str,
    md5: &str,
    ext: &str,
    chunks: u32,
    now: u64,
) -> (r: u64)
    requires
        old(tree).next_id < u64::MAX,
    ensures
        r == old(tree).next_id,
        final(tree).next_id == old(tree).next_id + 1,
        final(tree).nodes@ == without_alien_twins(old(tree).nodes@, target_pid, md5@, now).insert(
            r,
            final(tree).nodes@[r],
        ),
        is_new_file(
            final(tree).nodes@[r],
            r,
            target_pid,
            name@,
            lanzou_id@,
            size@,
            md5@,
            ext@,
            chunks,
            now,
        ),
        final(tree).last_modified == now,
        final(tree).root_lanzou_id == old(tree).root_lanzou_id,
        final(tree).deeperdir_lanzou_id == old(tree).deeperdir_lanzou_id,
        final(tree).file_path == old(tree).file_path,
{
    let ghost m = tree.nodes@;
    let es = tree.entries();
    let md5c = chars_of(md5);
    let alien = chars_of("alien://");
    proof {
        reveal_strlit("alien://");
        assert(alien@ =~= alien_prefix());
    }
    let mut i: usize = 0;
    while i < es.len()
        invariant
            i <= es@.len(),
            is_entry_list(es@, m),
            md5c@ == md5@,
            alien@ == alien_prefix(),
            same_shape(m, tree.nodes@),
            tree.next_id == old(tree).next_id,
            tree.root_lanzou_id == old(tree).root_lanzou_id,
            tree.deeperdir_lanzou_id == old(tree).deeperdir_lanzou_id,
            tree.file_path == old(tree).file_path,
            forall|x: u64| #[trigger]
                m.contains_key(x) ==> tree.nodes@[x] == (if exists|j: int|
                    0 <= j < i && #[trigger] alien_twin(m, target_pid, md5@, es@[j].0) && in_subtree(
                        m,
                        m[es@[j].0].id,
                        x,
                    ) {
                    tombstoned(m[x], now)
                } else {
                    m[x]
                }),
        decreases es.len() - i,
    {
        let e = &es[i];
        proof {
            assert(es@[i as int].1 == m[es@[i as int].0]);
            assert(entry_keys(es@)[i as int] == es@[i as int].0);
            assert(entry_keys(es@).contains(es@[i as int].0));
        }
        let same = chars_eq(chars_of(e.1.md5.as_str()).as_slice(), md5c.as_slice());
        let is_alien = has_prefix(chars_of(e.1.lanzou_id.as_str()).as_slice(), alien.as_slice());
        if e.1.pid == target_pid && same && is_alien {
            let ghost before = tree.nodes@;
            let a = e.1.id;
            tree.delete_node(a, now);
            proof {
                assert(alien_twin(m, target_pid, md5@, es@[i as int].0));
                assert forall|x: u64| #[trigger] m.contains_key(x) implies tree.nodes@[x] == (
                if exists|j: int|
                    0 <= j < i + 1 && #[trigger] alien_twin(m, target_pid, md5@, es@[j].0)
                        && in_subtree(m, m[es@[j].0].id, x) {
                    tombstoned(m[x], now)
                } else {
                    m[x]
                }) by {
                    lemma_same_shape_subtree(m, before, a, x);
                    if in_subtree(m, a, x) {
                        assert(0 <= i < i + 1 && alien_twin(m, target_pid, md5@, es@[i as int].0)
                            && in_subtree(m, m[es@[i as int].0].id, x));
                    } else {
                        if exists|j: int|
                            0 <= j < i + 1 && #[trigger] alien_twin(m, target_pid, md5@, es@[j].0)
                                && in_subtree(m, m[es@[j].0].id, x) {
                            let j = choose|j: int|
                                0 <= j < i + 1 && #[trigger] alien_twin(m, target_pid, md5@, es@[j].0)
                                    && in_subtree(m, m[es@[j].0].id, x);
                            assert(j < i);
                        }
                    }
                }
            }
        } else {
            proof {
                assert(!alien_twin(m, target_pid, md5@, es@[i as int].0));
                assert forall|x: u64| #[trigger] m.contains_key(x) implies tree.nodes@[x] == (
                if exists|j: int|
                    0 <= j < i + 1 && #[trigger] alien_twin(m, target_pid, md5@, es@[j].0)
                        && in_subtree(m, m[es@[j].0].id, x) {
                    tombstoned(m[x], now)
                } else {
                    m[x]
                }) by {
                    if exists|j: int|
                        0 <= j < i + 1 && #[trigger] alien_twin(m, target_pid, md5@, es@[j].0)
                            && in_subtree(m, m[es@[j].0].id, x) {
                        let j = choose|j: int|
                            0 <= j < i + 1 && #[trigger] alien_twin(m, target_pid, md5@, es@[j].0)
                                && in_subtree(m, m[es@[j].0].id, x);
                        assert(j < i);
                    }
                }
            }
        }
        i = i + 1;
    }
    proof {
        let w = without_alien_twins(m, target_pid, md5@, now);
        assert forall|x: u64| #[trigger] m.contains_key(x) implies tree.nodes@[x] == w[x] by {
            let inside = exists|j: int|
                0 <= j < es@.len() && #[trigger] alien_twin(m, target_pid, md5@, es@[j].0)
                    && in_subtree(m, m[es@[j].0].id, x);
            if inside {
                let j = choose|j: int|
                    0 <= j < es@.len() && #[trigger] alien_twin(m, target_pid, md5@, es@[j].0)
                        && in_subtree(m, m[es@[j].0].id, x);
                assert(below_alien_twin(m, target_pid, md5@, x));
            }
            if below_alien_twin(m, target_pid, md5@, x) {
                let k = choose|k: u64| #[trigger] alien_twin(m, target_pid, md5@, k) && in_subtree(m, m[k].id, x);
                assert(entry_keys(es@).contains(k));
                let j = choose|j: int| 0 <= j < entry_keys(es@).len() && entry_keys(es@)[j] == k;
                assert(es@[j].0 == k);
                assert(inside);
            }
        }
        assert(tree.nodes@ =~= w);
    }
    let r = tree.add_file(target_pid, name, lanzou_id, size, md5, ext, chunks, now);
    proof {
        assert(tree.nodes@ =~= without_alien_twins(m, target_pid, md5@, now).insert(
            r,
            tree.nodes@[r],
        ));
    }
    r
}

// ----------------------------------------------------------------------
// Copying a file already held
// ----------------------------------------------------------------------

/// Tries to satisfy an upload without sending a byte: when a live file of
/// one's own already has checksum `md5`, it is entered into folder
/// `target_pid` under `name`, pointing at that copy, as `commit_upload`
/// enters a finished upload. Returns whether that happened; the tree is
/// untouched when not.
pub fn instant_copy(
    tree: &mut VfsTree,
    target_pid: u64,
    name: &str,
    size: &str,
    md5: &str,
    ext: &str,
    now: u64,
) -> (r: bool)
    requires
        old(tree).next_id < u64::MAX,
    ensures
        r == exists|k: u64| #[trigger] own_copy(old(tree).nodes@, md5@, k),
        !r ==> *final(tree) == *old(tree),
        r ==> exists|k: u64|
            #[trigger] own_copy(old(tree).nodes@, md5@, k) && {
                let id = old(tree).next_id;
                &&& final(tree).next_id == id + 1
                &&& final(tree).nodes@ == without_alien_twins(
                    old(tree).nodes@,
                    target_pid,
                    md5@,
                    now,
                ).insert(id, final(tree).nodes@[id])
                &&& is_new_file(
                    final(tree).nodes@[id],
                    id,
                    target_pid,
                    name@,
                    old(tree).nodes@[k].lanzou_id@,
                    size@,
                    md5@,
                    ext@,
                    chunk_count_of(old(tree).nodes@[k].chunks@),
                    now,
                )
                &&& final(tree).last_modified == now
                &&& final(tree).root_lanzou_id == old(tree).root_lanzou_id
                &&& final(tree).deeperdir_lanzou_id == old(tree).deeperdir_lanzou_id
            },
{
    let ghost m = tree.nodes@;
    match find_own_copy(tree, md5) {
        None => false,
        Some((lid, ch)) => {
            let cc = chars_of(ch.as_str());
            let chunks: u32 = match parse_radix(cc.as_slice(), 10, 0xffff_ffff) {
                Some(v) => v as u32,
                None => 1,
            };
            commit_upload(tree, target_pid, name, lid.as_str(), size, md5, ext, chunks, now);
            proof {
                let k = choose|k: u64| #[trigger] own_copy(m, md5@, k) && m[k].lanzou_id@ == lid@ && m[k].chunks@ == ch@;
                assert(own_copy(m, md5@, k));
            }
            true
        },
    }
}

// ----------------------------------------------------------------------
// A file's checksum as text
// ----------------------------------------------------------------------

pub open spec fn hex_pair(b: u8) -> Seq<char> {
    seq![crate::crypto::hex_digit_char((b / 16) as nat), crate::crypto::hex_digit_char((b % 16) as nat)]
}

/// Each byte as two lowercase hexadecimal digits, as `{:x}` prints a digest.
pub open spec fn digest_hex(d: Seq<u8>) -> Seq<char>
    decreases d.len(),
{
    if d.len() == 0 {
        Seq::<char>::empty()
    } else {
        digest_hex(d.drop_last()) + hex_pair(d.last())
    }
}

proof fn lemma_digest_hex_len(d: Seq<u8>)
    ensures
        digest_hex(d).len() == 2 * d.len(),
    decreases d.len(),
{
    if d.len() > 0 {
        lemma_digest_hex_len(d.drop_last());
    }
}

/// The checksum of a file's bytes as the tree stores it: their MD5 digest in
/// 32 lowercase hexadecimal digits.
pub fn file_md5_hex(bytes: &[u8]) -> (r: String)
    ensures
        r@ == digest_hex(crate::external::md5_of(bytes@)),
        r@.len() == 32,
{
    let d = crate::external::md5_digest(bytes);
    let mut out: Vec<char> = Vec::new();
    let mut i: usize = 0;
    while i < d.len()
        invariant
            i <= d@.len(),
            out@ == digest_hex(d@.take(i as int)),
        decreases d.len() - i,
    {
        let b = d[i];
        out.push(crate::crypto::hex_digit_exec((b / 16) as u32));
        out.push(crate::crypto::hex_digit_exec((b % 16) as u32));
        proof {
            assert(d@.take(i + 1).drop_last() =~= d@.take(i as int));
            assert(out@ =~= digest_hex(d@.take(i as int)) + hex_pair(b));
        }
        i = i + 1;
    }
    proof {
        assert(d@.take(d@.len() as int) =~= d@);
        lemma_digest_hex_len(d@);
    }
    crate::text::string_from_chars(out.as_slice())
}

// ----------------------------------------------------------------------
// Cutting an upload into chunks
// ----------------------------------------------------------------------

/// The largest file sent whole, and the size of each chunk of a larger one.
pub const UPLOAD_CHUNK_LIMIT: u64 = 104857600;

/// How many pieces a file of `total` bytes is sent in.
pub open spec fn upload_chunks_spec(total: nat) -> nat {
    if total <= UPLOAD_CHUNK_LIMIT {
        1
    } else {
        ((total + UPLOAD_CHUNK_LIMIT - 1) / (UPLOAD_CHUNK_LIMIT as int)) as nat
    }
}

/// The number of pieces an upload of `total_size` bytes takes: one up to
/// the limit, else one per started chunk.
pub fn upload_chunk_count(total_size: u64) -> (r: u64)
    ensures
        r == upload_chunks_spec(total_size as nat),
        total_size > UPLOAD_CHUNK_LIMIT ==> (r - 1) * UPLOAD_CHUNK_LIMIT < total_size <= r * UPLOAD_CHUNK_LIMIT,
{
    if total_size <= UPLOAD_CHUNK_LIMIT {
        1
    } else {
        let r = total_size / UPLOAD_CHUNK_LIMIT + if total_size % UPLOAD_CHUNK_LIMIT == 0 { 0 } else { 1 };
        assert(r == (total_size + UPLOAD_CHUNK_LIMIT - 1) / (UPLOAD_CHUNK_LIMIT as int)) by (nonlinear_arith)
            requires
                r == total_size / 104857600 + if total_size % 104857600 == 0 { 0int } else { 1int },
                total_size > 104857600,
        {
        }
        assert((r - 1) * UPLOAD_CHUNK_LIMIT < total_size <= r * UPLOAD_CHUNK_LIMIT) by (nonlinear_arith)
            requires
                r == total_size / 104857600 + if total_size % 104857600 == 0 { 0int } else { 1int },
                total_size > 104857600,
        {
        }
        r
    }
}

/// Where chunk `i` of a file of `total` bytes starts.
pub open spec fn chunk_start(i: nat) -> int {
    i * UPLOAD_CHUNK_LIMIT
}

/// Where chunk `i` of a file of `total` bytes ends (exclusive).
pub open spec fn chunk_end(i: nat, total: nat) -> int {
    if (i + 1) * UPLOAD_CHUNK_LIMIT <= total {
        (i + 1) * UPLOAD_CHUNK_LIMIT
    } else {
        total as int
    }
}

/// The byte range `[start, end)` of chunk `i` of a file of `total_size` bytes.
pub fn upload_chunk_bounds(i: u64, total_size: u64) -> (r: (u64, u64))
    requires
        i < upload_chunks_spec(total_size as nat),
    ensures
        r.0 == chunk_start(i as nat),
        r.1 == chunk_end(i as nat, total_size as nat),
        r.0 <= r.1,
{
    let n = upload_chunk_count(total_size);
    assert(i * UPLOAD_CHUNK_LIMIT <= total_size) by (nonlinear_arith)
        requires
            i < n,
            n == 1 ==> total_size <= 104857600 || (n - 1) * 104857600 < total_size,
            total_size > 104857600 ==> (n - 1) * 104857600 < total_size,
            n == upload_chunks_spec(total_size as nat),
    {
    }
    let start = i * UPLOAD_CHUNK_LIMIT;
    let end = if total_size - start >= UPLOAD_CHUNK_LIMIT { start + UPLOAD_CHUNK_LIMIT } else { total_size };
    (start, end)
}

/// The chunks of an upload cover the file exactly, in order and without
/// overlap: the first starts at 0, each ends where the next starts, the last
/// ends at the file's end, and none is empty or longer than the limit.
pub proof fn law_upload_chunks_cover_the_file(total: nat, i: nat)
    requires
        total > UPLOAD_CHUNK_LIMIT,
        i < upload_chunks_spec(total),
    ensures
        chunk_start(0) == 0,
        i + 1 < upload_chunks_spec(total) ==> chunk_end(i, total) == chunk_start(i + 1),
        i + 1 == upload_chunks_spec(total) ==> chunk_end(i, total) == total,
        chunk_start(i) < chunk_end(i, total) <= chunk_start(i) + UPLOAD_CHUNK_LIMIT,
{
    let n = upload_chunks_spec(total);
    let l = UPLOAD_CHUNK_LIMIT as int;
    assert((n - 1) * l < total <= n * l) by (nonlinear_arith)
        requires
            n == (total + l - 1) / l,
            l == 104857600,
            total > l,
    {
    }
    assert(i * l + l == (i + 1) * l) by (nonlinear_arith);
    if i + 1 < n {
        assert((i + 1) * l <= (n - 1) * l) by (nonlinear_arith)
            requires
                i + 1 <= n - 1,
                l > 0,
        ;
    } else {
        assert(i == n - 1);
    }
}

/// A chunked download resumed after `offset` of its `total` bytes goes on
/// at the very next byte: the chunk and the offset within it that
/// `resume_position` gives name a byte inside one of the file's chunks, and
/// that byte is byte `offset` of the file.
pub proof fn law_resume_continues_at_the_next_byte(total: nat, offset: nat)
    requires
        total > UPLOAD_CHUNK_LIMIT,
        offset < total,
    ensures
        offset / (UPLOAD_CHUNK_LIMIT as nat) < upload_chunks_spec(total),
        chunk_start(offset / (UPLOAD_CHUNK_LIMIT as nat)) + offset % (UPLOAD_CHUNK_LIMIT as nat) == offset,
        chunk_start(offset / (UPLOAD_CHUNK_LIMIT as nat)) + offset % (UPLOAD_CHUNK_LIMIT as nat)
            < chunk_end(offset / (UPLOAD_CHUNK_LIMIT as nat), total),
{
    let l = UPLOAD_CHUNK_LIMIT as int;
    let c = (offset / (UPLOAD_CHUNK_LIMIT as nat)) as int;
    let r = (offset % (UPLOAD_CHUNK_LIMIT as nat)) as int;
    let n = upload_chunks_spec(total) as int;
    assert(c * l + r == offset && 0 <= r < l) by (nonlinear_arith)
        requires
            c == offset as int / l,
            r == offset as int % l,
            l == 104857600,
    {
    }
    assert((n - 1) * l < total <= n * l) by (nonlinear_arith)
        requires
            n == (total + l - 1) / l,
            l == 104857600,
            total > l,
    {
    }
    assert(c < n) by (nonlinear_arith)
        requires
            c * l + r == offset,
            0 <= r,
            offset < total,
            total <= n * l,
            l > 0,
            c >= 0,
    {
    }
    assert((c + 1) * l == c * l + l) by (nonlinear_arith);
}

/// The name a file sent whole is stored under: its checksum, a dot, the
/// extension the cloud accepts.
pub fn single_upload_name(md5: &str, safe_ext: &str) -> (r: String)
    ensures
        r@ == md5@ + seq!['.'] + safe_ext@,
{
    let mut out = chars_of(md5);
    out.push('.');
    crate::text::push_str_chars(&mut out, safe_ext);
    crate::text::string_from_chars(out.as_slice())
}

pub open spec fn chunk_upload_name_spec(md5: Seq<char>, i: nat) -> Seq<char> {
    md5 + "_part"@ + crate::text::decimal(i + 1) + ".iso"@
}

/// The name chunk `i` (counted from 0) is stored under:
/// `{checksum}_part{i + 1}.iso`.
pub fn chunk_upload_name(md5: &str, i: u64) -> (r: String)
    requires
        i < u64::MAX,
    ensures
        r@ == chunk_upload_name_spec(md5@, i as nat),
{
    let mut out = chars_of(md5);
    crate::text::push_str_chars(&mut out, "_part");
    crate::text::push_decimal(&mut out, i + 1);
    crate::text::push_str_chars(&mut out, ".iso");
    proof {
        reveal_strlit("_part");
        reveal_strlit(".iso");
    }
    crate::text::string_from_chars(out.as_slice())
}

// ----------------------------------------------------------------------
// When an upload stops
// ----------------------------------------------------------------------

/// What a failed whole-file upload reports: `CANCELLED` when the failure
/// says so, else the failure itself.
pub fn single_upload_failure(error: &str) -> (r: String)
    ensures
        r@ == if has_infix(error@, "CANCELLED"@) { "CANCELLED"@ } else { error@ },
{
    let e = chars_of(error);
    let c = chars_of("CANCELLED");
    if crate::text::contains_seq(e.as_slice(), c.as_slice()) {
        "CANCELLED".to_string()
    } else {
        error.to_string()
    }
}

pub open spec fn paused_at_spec(folder: Seq<char>, i: nat) -> Seq<char> {
    "PAUSED:"@ + folder + seq!['|'] + crate::text::decimal(i)
}

/// What a failed chunk upload reports, and whether the half-filled chunk
/// folder is to be deleted: a pause reports `PAUSED:{folder}|{chunk}` so
/// that the upload can resume there; a cancel deletes the folder and reports
/// `CANCELLED`; any other failure is reported as it is.
pub fn chunk_upload_failure(error: &str, folder: &str, i: u64) -> (r: (String, bool))
    ensures
        has_infix(error@, "PAUSED"@) ==> r.0@ == paused_at_spec(folder@, i as nat) && !r.1,
        !has_infix(error@, "PAUSED"@) && has_infix(error@, "CANCELLED"@) ==> r.0@ == "CANCELLED"@ && r.1,
        !has_infix(error@, "PAUSED"@) && !has_infix(error@, "CANCELLED"@) ==> r.0@ == error@ && !r.1,
{
    let e = chars_of(error);
    let p = chars_of("PAUSED");
    let c = chars_of("CANCELLED");
    if crate::text::contains_seq(e.as_slice(), p.as_slice()) {
        let mut out = chars_of("PAUSED:");
        crate::text::push_str_chars(&mut out, folder);
        out.push('|');
        crate::text::push_decimal(&mut out, i);
        proof {
            reveal_strlit("PAUSED:");
        }
        (crate::text::string_from_chars(out.as_slice()), false)
    } else if crate::text::contains_seq(e.as_slice(), c.as_slice()) {
        ("CANCELLED".to_string(), true)
    } else {
        (error.to_string(), false)
    }
}

// ----------------------------------------------------------------------
// Sending one piece of the cloud's upload form
// ----------------------------------------------------------------------

/// The folder field of an upload: the cloud's root is `0` there, where its
/// listings call it `-1`.
pub fn upload_parent_id(target_folder: &str) -> (r: String)
    ensures
        r@ == if target_folder@ == "-1"@ { "0"@ } else { target_folder@ },
{
    if crate::text::str_eq(target_folder, "-1") {
        "0".to_string()
    } else {
        target_folder.to_string()
    }
}

/// The text fields of the upload form, in the order they are sent; the file
/// itself follows them.
pub fn upload_form_fields(parent_id: &str, safe_name: &str) -> (r: Vec<FormField>)
    ensures
        form_view(r@) == seq![
            ("task"@, "1"@),
            ("vie"@, "2"@),
            ("ve"@, "2"@),
            ("id"@, "WU_FILE_0"@),
            ("folder_id_bb_n"@, parent_id@),
            ("name"@, safe_name@),
        ],
{
    let mut r: Vec<FormField> = Vec::new();
    r.push(FormField { name: "task".to_string(), value: "1".to_string() });
    r.push(FormField { name: "vie".to_string(), value: "2".to_string() });
    r.push(FormField { name: "ve".to_string(), value: "2".to_string() });
    r.push(FormField { name: "id".to_string(), value: "WU_FILE_0".to_string() });
    r.push(FormField { name: "folder_id_bb_n".to_string(), value: parent_id.to_string() });
    r.push(FormField { name: "name".to_string(), value: safe_name.to_string() });
    proof {
        assert(form_view(r@) =~= seq![
            ("task"@, "1"@),
            ("vie"@, "2"@),
            ("ve"@, "2"@),
            ("id"@, "WU_FILE_0"@),
            ("folder_id_bb_n"@, parent_id@),
            ("name"@, safe_name@),
        ]);
    }
    r
}

/// The size of the pieces a file's body is streamed in.
pub const UPLOAD_PIECE_SIZE: u64 = 262144;

/// The task flag's values: running, paused, cancelled.
pub const FLAG_PAUSED: u8 = 1;
pub const FLAG_CANCELLED: u8 = 2;

/// What the body stream does next.
pub enum UploadPiece {
    /// Every byte was sent.
    Done,
    /// The task was paused: the stream fails with `PAUSED`.
    Paused,
    /// The task was cancelled: the stream fails with `CANCELLED`.
    Cancelled,
    /// Send bytes `[start, end)`.
    Send { start: u64, end: u64 },
}

/// The next step of streaming `total` bytes from `offset` on, the task's
/// flag being `flag`: the flag is read before each piece.
pub fn next_upload_piece(offset: u64, total: u64, flag: u8) -> (r: UploadPiece)
    ensures
        offset >= total ==> r is Done,
        offset < total && flag == FLAG_PAUSED ==> r is Paused,
        offset < total && flag == FLAG_CANCELLED ==> r is Cancelled,
        offset < total && flag != FLAG_PAUSED && flag != FLAG_CANCELLED ==> (r matches UploadPiece::Send {
            start,
            end,
        } && start == offset && end == (if total - offset >= UPLOAD_PIECE_SIZE {
            offset + UPLOAD_PIECE_SIZE
        } else {
            total as int
        })),
{
    if offset >= total {
        UploadPiece::Done
    } else if flag == FLAG_PAUSED {
        UploadPiece::Paused
    } else if flag == FLAG_CANCELLED {
        UploadPiece::Cancelled
    } else {
        let end = if total - offset >= UPLOAD_PIECE_SIZE { offset + UPLOAD_PIECE_SIZE } else { total };
        UploadPiece::Send { start: offset, end }
    }
}

/// How often, in seconds, the upload watchdog looks at the progress.
pub const WATCHDOG_PERIOD_SECS: u64 = 5;

/// The fewest bytes an upload must send between two looks.
pub const WATCHDOG_MIN_BYTES: u64 = 750_000;

/// How many looks the server may take to answer once every byte is sent.
pub const WATCHDOG_SERVER_LOOKS: u32 = 6;

/// What the watchdog concludes at a look.
#[derive(Debug, Clone, Copy, PartialEq, Eq, Structural)]
pub enum WatchdogVerdict {
    /// The upload goes on.
    Healthy,
    /// Too few bytes went out since the last look: the body is aborted.
    Stalled,
    /// Every byte went out, but the server has not answered in time.
    ServerHung,
}

/// What the watchdog remembers between looks: the offset at the last
/// healthy look, and how many looks have found every byte sent.
pub struct UploadWatchdog {
    pub last_offset: u64,
    pub server_wait_looks: u32,
}

/// The bytes an upload must send between looks: the fixed floor, or less
/// when a speed limit of `limit_kb` KiB/s (0 for none) allows fewer.
pub open spec fn min_expected_spec(limit_kb: u32) -> int {
    if limit_kb > 0 {
        let by_limit = limit_kb * 1024 * 5 / 2;
        if by_limit < WATCHDOG_MIN_BYTES {
            by_limit
        } else {
            WATCHDOG_MIN_BYTES as int
        }
    } else {
        WATCHDOG_MIN_BYTES as int
    }
}

pub fn min_expected_bytes(limit_kb: u32) -> (r: u64)
    ensures
        r == min_expected_spec(limit_kb),
{
    if limit_kb > 0 {
        let by_limit = (limit_kb as u64) * 1024 * 5 / 2;
        if by_limit < WATCHDOG_MIN_BYTES {
            by_limit
        } else {
            WATCHDOG_MIN_BYTES
        }
    } else {
        WATCHDOG_MIN_BYTES
    }
}

impl UploadWatchdog {
    pub fn new() -> (r: Self)
        ensures
            r.last_offset == 0,
            r.server_wait_looks == 0,
    {
        UploadWatchdog { last_offset: 0, server_wait_looks: 0 }
    }

    /// A look, with `sent` of the body's `total` bytes sent and a speed
    /// limit of `limit_kb`.
    pub fn look(&mut self, sent: u64, total: u64, limit_kb: u32) -> (r: WatchdogVerdict)
        ensures
            sent >= total ==> {
                &&& final(self).server_wait_looks == (if old(self).server_wait_looks < u32::MAX {
                    old(self).server_wait_looks + 1
                } else {
                    old(self).server_wait_looks as int
                })
                &&& final(self).last_offset == old(self).last_offset
                &&& r == (if final(self).server_wait_looks > WATCHDOG_SERVER_LOOKS {
                    WatchdogVerdict::ServerHung
                } else {
                    WatchdogVerdict::Healthy
                })
            },
            sent < total ==> {
                let progress = if sent >= old(self).last_offset {
                    sent - old(self).last_offset
                } else {
                    0
                };
                &&& final(self).server_wait_looks == old(self).server_wait_looks
                &&& if progress < min_expected_spec(limit_kb) {
                    &&& r == WatchdogVerdict::Stalled
                    &&& final(self).last_offset == old(self).last_offset
                } else {
                    &&& r == WatchdogVerdict::Healthy
                    &&& final(self).last_offset == sent
                }
            },
    {
        if sent >= total {
            self.server_wait_looks = self.server_wait_looks.saturating_add(1);
            if self.server_wait_looks > WATCHDOG_SERVER_LOOKS {
                WatchdogVerdict::ServerHung
            } else {
                WatchdogVerdict::Healthy
            }
        } else {
            let progress = sent.saturating_sub(self.last_offset);
            if progress < min_expected_bytes(limit_kb) {
                WatchdogVerdict::Stalled
            } else {
                self.last_offset = sent;
                WatchdogVerdict::Healthy
            }
        }
    }
}

/// The media type an upload declares for the stored file, guessed from its
/// name's extension; `application/octet-stream` without one.
pub fn upload_mime(safe_name: &str) -> (r: String)
    ensures
        r@ == crate::external::guessed_mime(safe_name@),
        !safe_name@.contains('.') ==> r@ == "application/octet-stream"@,
{
    crate::external::mime_for_name(safe_name)
}

/// The cloud id of an uploaded file from the upload's answer: with status 1,
/// the id of its first entry (empty when it has none); else the failure,
/// quoting the answer.
pub fn upload_answer_result(zt: Option<i64>, first_id: Option<String>, raw: &str) -> (r: Result<String, String>)
    ensures
        zt == Some(1i64) ==> (r matches Ok(id) && id@ == crate::pages::opt_string_text(first_id)),
        zt != Some(1i64) ==> (r matches Err(e) && e@ == "Upload failed: "@ + raw@),
{
    if zt == Some(1i64) {
        match first_id {
            Some(id) => Ok(id),
            None => Ok(String::new()),
        }
    } else {
        let mut out = chars_of("Upload failed: ");
        crate::text::push_str_chars(&mut out, raw);
        proof {
            reveal_strlit("Upload failed: ");
        }
        Err(crate::text::string_from_chars(out.as_slice()))
    }
}

// ----------------------------------------------------------------------
// Where a download comes from
// ----------------------------------------------------------------------

/// What a download fetches: the file's chunk count as stored, the share
/// link to resolve, and its password if it has one.
pub struct DownloadSource {
    pub chunks: String,
    pub share_url: String,
    pub password: Option<String>,
}

pub open spec fn password_of(p: Seq<char>) -> Option<Seq<char>> {
    if p.len() == 0 {
        None
    } else {
        Some(p)
    }
}

pub open spec fn opt_view(o: Option<String>) -> Option<Seq<char>> {
    match o {
        Some(s) => Some(s@),
        None => None,
    }
}

fn password_from(p: &str) -> (r: Option<String>)
    ensures
        opt_view(r) == password_of(p@),
{
    if chars_of(p).len() == 0 {
        None
    } else {
        Some(p.to_string())
    }
}

/// The source a share code names: its chunk count, link and password.
pub fn source_from_payload(payload: &SharePayload) -> (r: DownloadSource)
    ensures
        r.chunks@ == crate::text::decimal(payload.c as nat),
        r.share_url@ == payload.l@,
        opt_view(r.password) == password_of(payload.p@),
{
    let cs = crate::text::decimal_chars(payload.c as u64);
    DownloadSource {
        chunks: crate::text::string_from_chars(cs.as_slice()),
        share_url: payload.l.clone(),
        password: password_from(payload.p.as_str()),
    }
}

/// The source of a file that points at someone else's copy: the chunk count
/// the tree holds, with the link and password of the payload behind it.
pub fn source_from_alien(node: &VfsNode, payload: &SharePayload) -> (r: DownloadSource)
    ensures
        r.chunks@ == node.chunks@,
        r.share_url@ == payload.l@,
        opt_view(r.password) == password_of(payload.p@),
{
    DownloadSource {
        chunks: node.chunks.clone(),
        share_url: payload.l.clone(),
        password: password_from(payload.p.as_str()),
    }
}

/// The source of a file of one's own, from the cloud's answer about its
/// share: none when the answer gives no usable link.
pub fn source_from_share_info(node: &VfsNode, info: &ShareInfo) -> (r: Result<DownloadSource, String>)
    ensures
        share_url_of(*info).len() == 0 || share_url_of(*info) == seq!['/'] ==> (r matches Err(e)
            && e@ == "Could not get share URL"@),
        !(share_url_of(*info).len() == 0 || share_url_of(*info) == seq!['/']) ==> (r matches Ok(s)
            && s.chunks@ == node.chunks@ && s.share_url@ == share_url_of(*info) && opt_view(s.password)
            == password_of(opt_text(info.pwd))),
{
    let url = crate::share::share_url(info);
    let uc = chars_of(url.as_str());
    if uc.len() == 0 || (uc.len() == 1 && uc[0] == '/') {
        proof {
            if uc@.len() == 1 && uc@[0] == '/' {
                assert(uc@ =~= seq!['/']);
            }
        }
        return Err("Could not get share URL".to_string());
    }
    proof {
        if share_url_of(*info) == seq!['/'] {
            assert(uc@.len() == 1 && uc@[0] == '/');
        }
    }
    let pwd = match &info.pwd {
        Some(p) => password_from(p.as_str()),
        None => None,
    };
    Ok(DownloadSource { chunks: node.chunks.clone(), share_url: url, password: pwd })
}

// ----------------------------------------------------------------------
// Fetching a download
// ----------------------------------------------------------------------

/// The `Range` header that resumes a download at `offset`; none at 0.
pub fn resume_range_header(offset: u64) -> (r: Option<String>)
    ensures
        offset == 0 ==> r is None,
        offset > 0 ==> (r matches Some(h) && h@ == "bytes="@ + crate::text::decimal(offset as nat)
            + seq!['-']),
{
    if offset == 0 {
        None
    } else {
        let mut out = chars_of("bytes=");
        crate::text::push_decimal(&mut out, offset);
        out.push('-');
        proof {
            reveal_strlit("bytes=");
        }
        Some(crate::text::string_from_chars(out.as_slice()))
    }
}

/// What stops a running download, the task's flag being `flag` after
/// `loaded` bytes: a pause reports `PAUSED:{loaded}`, a cancel `CANCELLED`.
pub fn download_stop(flag: u8, loaded: u64) -> (r: Option<String>)
    ensures
        flag == FLAG_PAUSED ==> (r matches Some(m) && m@ == "PAUSED:"@ + crate::text::decimal(loaded as nat)),
        flag == FLAG_CANCELLED ==> (r matches Some(m) && m@ == "CANCELLED"@),
        flag != FLAG_PAUSED && flag != FLAG_CANCELLED ==> r is None,
{
    if flag == FLAG_PAUSED {
        let mut out = chars_of("PAUSED:");
        crate::text::push_decimal(&mut out, loaded);
        proof {
            reveal_strlit("PAUSED:");
        }
        Some(crate::text::string_from_chars(out.as_slice()))
    } else if flag == FLAG_CANCELLED {
        Some("CANCELLED".to_string())
    } else {
        None
    }
}

/// Where a chunked download resumes after `resume_offset` bytes: the chunk,
/// and the offset within it.
pub fn resume_position(resume_offset: u64) -> (r: (u64, u64))
    ensures
        r.0 == resume_offset / UPLOAD_CHUNK_LIMIT,
        r.1 == resume_offset % UPLOAD_CHUNK_LIMIT,
        r.0 * UPLOAD_CHUNK_LIMIT + r.1 == resume_offset,
{
    (resume_offset / UPLOAD_CHUNK_LIMIT, resume_offset % UPLOAD_CHUNK_LIMIT)
}

// ----------------------------------------------------------------------
// The chunks of a chunked download
// ----------------------------------------------------------------------

/// A file of a shared folder with its resolved link: its name, size and
/// time as listed, and its direct link, or why there is none.
pub struct FolderLink {
    pub name: String,
    pub size: String,
    pub time: String,
    pub direct_url: Option<String>,
    pub error: Option<String>,
}

pub open spec fn part_pattern() -> Seq<char> {
    "_part(\\d+)\\.iso"@
}

/// The part number a chunk's name carries, 0 when it carries none that fits.
pub open spec fn part_number_spec(name: Seq<char>) -> u32 {
    match crate::external::regex_group(part_pattern(), name, 1) {
        Some(g) => match crate::text::parse_unsigned(g, 10, u32::MAX as nat) {
            Some(v) => v as u32,
            None => 0,
        },
        None => 0,
    }
}

/// The part number of a chunk named `name`: the digits of its first
/// `_part{n}.iso`, 0 when there is none or it does not fit.
pub fn part_number(name: &str) -> (r: u32)
    ensures
        r == part_number_spec(name@),
{
    proof {
        reveal_strlit("_part(\\d+)\\.iso");
    }
    match crate::external::regex_capture("_part(\\d+)\\.iso", name, 1) {
        Some(g) => {
            let cs = chars_of(g.as_str());
            match parse_radix(cs.as_slice(), 10, 0xffff_ffff) {
                Some(v) => v as u32,
                None => 0,
            }
        },
        None => 0,
    }
}

pub open spec fn link_part(l: FolderLink) -> u32 {
    part_number_spec(l.name@)
}

/// `x` put into `s` after every link whose part is not above its own.
pub open spec fn insert_by_part(s: Seq<FolderLink>, x: FolderLink) -> Seq<FolderLink>
    decreases s.len(),
{
    if s.len() == 0 {
        seq![x]
    } else if link_part(s.last()) <= link_part(x) {
        s.push(x)
    } else {
        insert_by_part(s.drop_last(), x).push(s.last())
    }
}

/// The links in part order, links of equal part in the order given (the
/// order a stable sort leaves).
pub open spec fn sorted_by_part(s: Seq<FolderLink>) -> Seq<FolderLink>
    decreases s.len(),
{
    if s.len() == 0 {
        s
    } else {
        insert_by_part(sorted_by_part(s.drop_last()), s.last())
    }
}

proof fn lemma_insert_at(s: Seq<FolderLink>, x: FolderLink, p: int)
    requires
        0 <= p <= s.len(),
        forall|j: int| p <= j < s.len() ==> link_part(#[trigger] s[j]) > link_part(x),
        p > 0 ==> link_part(s[p - 1]) <= link_part(x),
    ensures
        insert_by_part(s, x) == s.take(p).push(x) + s.skip(p),
    decreases s.len(),
{
    if s.len() == 0 {
        assert(s.take(p).push(x) + s.skip(p) =~= seq![x]);
    } else if p == s.len() {
        assert(s.take(p) =~= s);
        assert(s.take(p).push(x) + s.skip(p) =~= s.push(x));
    } else {
        assert(link_part(s[s.len() - 1]) > link_part(x));
        let d = s.drop_last();
        assert forall|j: int| p <= j < d.len() implies link_part(#[trigger] d[j]) > link_part(x) by {
            assert(d[j] == s[j]);
        }
        lemma_insert_at(d, x, p);
        assert(d.take(p) =~= s.take(p));
        assert((d.take(p).push(x) + d.skip(p)).push(s.last()) =~= s.take(p).push(x) + s.skip(p));
    }
}

/// Puts the links of a chunked download in part order; links of equal part
/// keep their order.
pub fn sort_links_by_part(links: Vec<FolderLink>) -> (r: Vec<FolderLink>)
    ensures
        r@ == sorted_by_part(links@),
{
    let ghost all = links@;
    let mut rest = links;
    let mut out: Vec<FolderLink> = Vec::new();
    let mut keys: Vec<u32> = Vec::new();
    while rest.len() > 0
        invariant
            rest@.len() <= all.len(),
            rest@ == all.skip(all.len() - rest@.len()),
            out@ == sorted_by_part(all.take(all.len() - rest@.len())),
            keys@.len() == out@.len(),
            forall|j: int| 0 <= j < out@.len() ==> #[trigger] keys@[j] == link_part(out@[j]),
        decreases rest.len(),
    {
        let ghost i = all.len() - rest@.len();
        let x = rest.remove(0);
        proof {
            assert(x == all[i]);
            assert(rest@ =~= all.skip(all.len() - rest@.len()));
        }
        let kx = part_number(x.name.as_str());
        let mut p = out.len();
        while p > 0 && keys[p - 1] > kx
            invariant
                p <= out@.len(),
                keys@.len() == out@.len(),
                forall|j: int| 0 <= j < out@.len() ==> #[trigger] keys@[j] == link_part(out@[j]),
                forall|j: int| p <= j < out@.len() ==> link_part(#[trigger] out@[j]) > kx,
            decreases p,
        {
            p = p - 1;
        }
        let ghost out0 = out@;
        let ghost keys0 = keys@;
        proof {
            assert(all.take(i + 1).drop_last() =~= all.take(i));
            assert(all.take(i + 1).last() == x);
            lemma_insert_at(out0, x, p as int);
            assert(out0.insert(p as int, x) =~= out0.take(p as int).push(x) + out0.skip(p as int));
        }
        out.insert(p, x);
        keys.insert(p, kx);
        proof {
            assert forall|j: int| 0 <= j < out@.len() implies #[trigger] keys@[j] == link_part(out@[j]) by {
                if j < p {
                    assert(keys@[j] == keys0[j] && out@[j] == out0[j]);
                } else if j > p {
                    assert(keys@[j] == keys0[j - 1] && out@[j] == out0[j - 1]);
                }
            }
        }
    }
    proof {
        assert(all.take(all.len() as int) =~= all);
    }
    out
}

/// The direct link of a chunk, or why the download cannot go on: an empty
/// or `null` link fails, naming the listing's error or `Unknown`.
pub fn chunk_link_url(link: &FolderLink) -> (r: Result<String, String>)
    ensures
        ({
            let u = crate::pages::opt_string_text(link.direct_url);
            if u.len() == 0 || u == "null"@ {
                r matches Err(e) && e@ == "Failed to resolve direct URL for chunk: "@ + (match link.error {
                    Some(e) => e@,
                    None => "Unknown"@,
                })
            } else {
                r matches Ok(v) && v@ == u
            }
        }),
{
    let u = match &link.direct_url {
        Some(u) => u.clone(),
        None => String::new(),
    };
    let uc = chars_of(u.as_str());
    let nullc = chars_of("null");
    if uc.len() == 0 || chars_eq(uc.as_slice(), nullc.as_slice()) {
        let mut out = chars_of("Failed to resolve direct URL for chunk: ");
        match &link.error {
            Some(e) => crate::text::push_str_chars(&mut out, e.as_str()),
            None => crate::text::push_str_chars(&mut out, "Unknown"),
        }
        proof {
            reveal_strlit("Failed to resolve direct URL for chunk: ");
        }
        Err(crate::text::string_from_chars(out.as_slice()))
    } else {
        Ok(u)
    }
}

// ----------------------------------------------------------------------
// Where folders and moves land on the cloud
// ----------------------------------------------------------------------

/// Folder `pid` lies two or more folders deep: it and its parent are both
/// folders of the tree.
pub open spec fn two_deep(m: Map<u64, VfsNode>, pid: u64) -> bool {
    pid != 0 && m.contains_key(pid) && m[pid].pid != 0 && m.contains_key(m[pid].pid)
}

/// The cloud folder that holds what the tree puts into folder `pid`: the
/// cloud's nesting is shallow, so everything two or more folders deep goes
/// to the overflow folder; the root's folder for 0 or an unknown folder.
pub open spec fn physical_folder_of(tree: VfsTree, pid: u64) -> Seq<char> {
    if two_deep(tree.nodes@, pid) {
        tree.deeperdir_lanzou_id@
    } else if pid == 0 {
        tree.root_lanzou_id@
    } else if tree.nodes@.contains_key(pid) {
        tree.nodes@[pid].lanzou_id@
    } else {
        tree.root_lanzou_id@
    }
}

/// The cloud folder that receives what is created in, or moved into,
/// folder `pid` of the tree.
pub fn physical_folder(tree: &VfsTree, pid: u64) -> (r: String)
    ensures
        r@ == physical_folder_of(*tree, pid),
{
    if pid != 0 {
        match tree.nodes.get(&pid) {
            Some(n) => {
                if n.pid != 0 && tree.nodes.contains_key(&n.pid) {
                    tree.deeperdir_lanzou_id.clone()
                } else {
                    n.lanzou_id.clone()
                }
            },
            None => tree.root_lanzou_id.clone(),
        }
    } else {
        tree.root_lanzou_id.clone()
    }
}

/// Where a folder being rebuilt under `new_parent_pid` lands on the cloud:
/// the overflow folder when that parent lies two or more folders deep, else
/// the parent's new cloud folder `parent_folder`.
pub fn rebuild_target(tree: &VfsTree, new_parent_pid: u64, parent_folder: &str) -> (r: String)
    ensures
        r@ == if two_deep(tree.nodes@, new_parent_pid) {
            tree.deeperdir_lanzou_id@
        } else {
            parent_folder@
        },
{
    let deep = if new_parent_pid != 0 {
        match tree.nodes.get(&new_parent_pid) {
            Some(n) => n.pid != 0 && tree.nodes.contains_key(&n.pid),
            None => false,
        }
    } else {
        false
    };
    if deep {
        tree.deeperdir_lanzou_id.clone()
    } else {
        parent_folder.to_string()
    }
}

/// How an item is moved on the cloud.
pub enum MoveKind {
    /// A folder is rebuilt at the destination, its contents moved one by one.
    Folder,
    /// A file pointing at someone else's copy has nothing of one's own to move.
    Alien,
    /// A chunked file's folder is rebuilt and its chunks moved.
    Chunked,
    /// A single file is moved.
    Single,
}

pub open spec fn move_kind_of(n: VfsNode) -> MoveKind {
    if n.node_type == NodeType::Directory {
        MoveKind::Folder
    } else if starts_with(n.lanzou_id@, alien_prefix()) {
        MoveKind::Alien
    } else if crate::share::is_chunked_text(n.chunks@) {
        MoveKind::Chunked
    } else {
        MoveKind::Single
    }
}

/// How node `n` is moved on the cloud.
pub fn move_kind(n: &VfsNode) -> (r: MoveKind)
    ensures
        r == move_kind_of(*n),
{
    match n.node_type {
        NodeType::Directory => MoveKind::Folder,
        NodeType::File => {
            let alien = chars_of("alien://");
            proof {
                reveal_strlit("alien://");
                assert(alien@ =~= alien_prefix());
            }
            if has_prefix(chars_of(n.lanzou_id.as_str()).as_slice(), alien.as_slice()) {
                MoveKind::Alien
            } else if crate::share::is_chunked(n) {
                MoveKind::Chunked
            } else {
                MoveKind::Single
            }
        },
    }
}

/// Node `n` after a move into `pid` at `now`, with its new cloud id if it
/// got one.
pub open spec fn moved_node(n: VfsNode, pid: u64, lanzou_id: Option<Seq<char>>, now: u64, after: VfsNode) -> bool {
    &&& after.pid == pid
    &&& after.time == now
    &&& after.lanzou_id@ == (match lanzou_id {
        Some(l) => l,
        None => n.lanzou_id@,
    })
    &&& after.node_type == n.node_type
    &&& after.id == n.id
    &&& after.name == n.name
    &&& after.size == n.size
    &&& after.md5 == n.md5
    &&& after.ext == n.ext
    &&& after.chunks == n.chunks
    &&& after.is_trashed == n.is_trashed
    &&& after.is_deleted == n.is_deleted
}

/// Records in the tree that node `id` now lies in folder `new_pid`, moved
/// at `now`, with the cloud id it was given if it got a new one; a node the
/// tree does not hold is left alone.
pub fn record_move(tree: &mut VfsTree, id: u64, new_pid: u64, new_lanzou_id: Option<String>, now: u64)
    ensures
        !old(tree).nodes@.contains_key(id) ==> final(tree).nodes@ == old(tree).nodes@,
        old(tree).nodes@.contains_key(id) ==> final(tree).nodes@ == old(tree).nodes@.insert(
            id,
            final(tree).nodes@[id],
        ) && moved_node(old(tree).nodes@[id], new_pid, opt_view(new_lanzou_id), now, final(tree).nodes@[id]),
        final(tree).next_id == old(tree).next_id,
        final(tree).last_modified == old(tree).last_modified,
        final(tree).root_lanzou_id == old(tree).root_lanzou_id,
        final(tree).deeperdir_lanzou_id == old(tree).deeperdir_lanzou_id,
        final(tree).file_path == old(tree).file_path,
{
    let updated = match tree.nodes.get(&id) {
        Some(n) => {
            let mut u = n.duplicate();
            u.pid = new_pid;
            u.time = now;
            match new_lanzou_id {
                Some(l) => {
                    u.lanzou_id = l;
                },
                None => {},
            }
            Some(u)
        },
        None => None,
    };
    match updated {
        Some(u) => {
            tree.nodes.insert(id, u);
        },
        None => {},
    }
}

} // verus!
