//! Recognizing the chunks of a large file in a cloud folder and putting them
//! in order. A chunk is named by one of three schemes: a sealed name, a
//! checksum followed by a four-digit hexadecimal number, or a legacy
//! `_partN.iso` suffix. Folders whose chunks carry no number are taken in
//! upload order, which the cloud lists newest first.
use vstd::prelude::*;
use vstd::multiset::Multiset;
use crate::crypto::{chunk_index_of_name, decrypt_chunk_filename};
use crate::external::{regex_capture, regex_group};
use crate::stream::CHUNK_SIZE;
use crate::text::{chars_of, decimal, parse_radix, parse_unsigned, push_decimal, push_str_chars,
    string_from_chars};

verus! {

/// A file of a cloud folder as the ordering reads it: its id, its full name
/// and its short name where the listing has them, and its size in bytes (0
/// where the listing gives none). The id rides along with the file.
pub struct CloudFile {
    pub id: Option<String>,
    pub name_all: Option<String>,
    pub name: Option<String>,
    pub size_bytes: u64,
}

/// The name a file is known by: its full name, else its short name, else empty.
pub open spec fn file_name_of(f: CloudFile) -> Seq<char> {
    match f.name_all {
        Some(n) => n@,
        None => match f.name {
            Some(n) => n@,
            None => Seq::<char>::empty(),
        },
    }
}

pub fn chunk_file_name(file: &CloudFile) -> (r: &str)
    ensures
        r@ == file_name_of(*file),
{
    match &file.name_all {
        Some(n) => n.as_str(),
        None => match &file.name {
            Some(n) => n.as_str(),
            None => {
                proof {
                    reveal_strlit("");
                }
                ""
            },
        },
    }
}

pub open spec fn covert_pattern() -> Seq<char> {
    "^[0-9a-f]{32}([0-9a-f]{4})\\.zip$"@
}

pub open spec fn legacy_pattern() -> Seq<char> {
    "_part(\\d+)\\.iso$"@
}

pub open spec fn as_u32(o: Option<nat>) -> Option<u32> {
    match o {
        Some(v) => Some(v as u32),
        None => None,
    }
}

/// The chunk number a file name carries under `secret`: a sealed name
/// first, then a checksum with a hexadecimal number, then a legacy part
/// number. A name that matches a scheme but whose number does not fit is no
/// chunk.
pub open spec fn chunk_index_spec(secret: Seq<char>, name: Seq<char>) -> Option<u32> {
    match chunk_index_of_name(secret, name) {
        Some(i) => Some(i),
        None => match regex_group(covert_pattern(), name, 1) {
            Some(g) => as_u32(parse_unsigned(g, 16, u32::MAX as nat)),
            None => match regex_group(legacy_pattern(), name, 1) {
                Some(g) => as_u32(parse_unsigned(g, 10, u32::MAX as nat)),
                None => None,
            },
        },
    }
}

pub fn chunk_index_from_name(secret: &str, name: &str) -> (r: Option<u32>)
    ensures
        r == chunk_index_spec(secret@, name@),
{
    if let Some(index) = decrypt_chunk_filename(secret, name) {
        return Some(index);
    }
    if let Some(g) = regex_capture("^[0-9a-f]{32}([0-9a-f]{4})\\.zip$", name, 1) {
        let cs = chars_of(g.as_str());
        return match parse_radix(cs.as_slice(), 16, 0xffff_ffff) {
            Some(v) => Some(v as u32),
            None => None,
        };
    }
    match regex_capture("_part(\\d+)\\.iso$", name, 1) {
        Some(g) => {
            let cs = chars_of(g.as_str());
            match parse_radix(cs.as_slice(), 10, 0xffff_ffff) {
                Some(v) => Some(v as u32),
                None => None,
            }
        },
        None => None,
    }
}

// ----------------------------------------------------------------------
// Putting the chunks in order
// ----------------------------------------------------------------------

/// The chunk number of a file, under `secret`.
pub open spec fn file_index(secret: Seq<char>, f: CloudFile) -> Option<u32> {
    chunk_index_spec(secret, file_name_of(f))
}

/// Files with their chunk numbers under `secret`, the numbers in order.
pub open spec fn keyed_sorted(secret: Seq<char>, v: Seq<CloudFile>, ks: Seq<u32>) -> bool {
    &&& ks.len() == v.len()
    &&& forall|i: int| 0 <= i < v.len() ==> file_index(secret, #[trigger] v[i]) == Some(ks[i])
    &&& forall|i: int, j: int| 0 <= i < j < ks.len() ==> #[trigger] ks[i] <= #[trigger] ks[j]
}

/// Inserts `x`, whose number is `kx`, after every file whose number is not above it.
fn insert_by_key(v: &mut Vec<CloudFile>, ks: &mut Vec<u32>, x: CloudFile, kx: u32, Ghost(secret): Ghost<Seq<char>>)
    requires
        keyed_sorted(secret, old(v)@, old(ks)@),
        file_index(secret, x) == Some(kx),
    ensures
        keyed_sorted(secret, final(v)@, final(ks)@),
        final(v)@.to_multiset() == old(v)@.to_multiset().insert(x),
{
    let mut p: usize = 0;
    while p < ks.len() && ks[p] <= kx
        invariant
            p <= ks.len(),
            ks@ == old(ks)@,
            v@ == old(v)@,
            forall|i: int| 0 <= i < p ==> #[trigger] ks@[i] <= kx,
        decreases ks.len() - p,
    {
        p = p + 1;
    }
    let ghost before = v@;
    let ghost kbefore = ks@;
    let ghost gx = x;
    v.insert(p, x);
    ks.insert(p, kx);
    proof {
        let after = v@;
        let kafter = ks@;
        assert(after =~= before.insert(p as int, gx));
        assert(kafter =~= kbefore.insert(p as int, kx));
        assert forall|i: int| 0 <= i < after.len() implies file_index(secret, #[trigger] after[i])
            == Some(kafter[i]) by {
            if i < p {
                assert(after[i] == before[i] && kafter[i] == kbefore[i]);
            } else if i > p {
                assert(after[i] == before[i - 1] && kafter[i] == kbefore[i - 1]);
            }
        }
        assert forall|i: int, j: int| 0 <= i < j < kafter.len() implies #[trigger] kafter[i]
            <= #[trigger] kafter[j] by {
            if j < p {
                assert(kafter[i] == kbefore[i] && kafter[j] == kbefore[j]);
            } else if j == p {
                assert(kafter[i] == kbefore[i]);
            } else if i == p {
                assert(kafter[j] == kbefore[j - 1]);
            } else if i < p {
                assert(kafter[i] == kbefore[i] && kafter[j] == kbefore[j - 1]);
            } else {
                assert(kafter[i] == kbefore[i - 1] && kafter[j] == kbefore[j - 1]);
            }
        }
        assert(after.remove(p as int) =~= before);
        broadcast use vstd::seq_lib::group_to_multiset_ensures;

        assert(after.to_multiset().count(gx) > 0) by {
            assert(after[p as int] == gx);
            assert(after.contains(gx));
        }
        assert(after.to_multiset() =~= before.to_multiset().insert(gx)) by {
            assert(before.to_multiset() == after.to_multiset().remove(gx));
        }
    }
}

/// The files in reverse order.
fn reverse_files(files: &mut Vec<CloudFile>)
    ensures
        final(files)@ == old(files)@.reverse(),
{
    let mut out: Vec<CloudFile> = Vec::new();
    while files.len() > 0
        invariant
            out@ + files@.reverse() == old(files)@.reverse(),
        decreases files.len(),
    {
        let ghost before = files@;
        let f = files.pop().unwrap();
        proof {
            assert(before =~= files@.push(f));
            assert(before.reverse() =~= seq![f] + files@.reverse());
        }
        out.push(f);
        proof {
            assert(out@ + files@.reverse() =~= old(files)@.reverse());
        }
    }
    proof {
        assert(files@.reverse() =~= Seq::<CloudFile>::empty());
        assert(out@ =~= old(files)@.reverse());
    }
    *files = out;
}

/// The size that the last of `n` chunks of a file of `total` bytes has.
pub open spec fn tail_size(total: u64, n: nat) -> int {
    let full = if n == 0 {
        0
    } else {
        n - 1
    };
    let before = if CHUNK_SIZE * full > u64::MAX {
        u64::MAX as int
    } else {
        CHUNK_SIZE * full
    };
    if total >= before {
        total - before
    } else {
        0
    }
}

/// A listing of unnumbered chunks that already runs oldest first: the
/// file's last chunk is short, the listing's last entry is that short
/// chunk and its first entry is a full one.
pub open spec fn already_oldest_first(files: Seq<CloudFile>, total: u64) -> bool {
    let first = if files.len() > 0 {
        files[0].size_bytes
    } else {
        0
    };
    let last = if files.len() > 0 {
        files.last().size_bytes
    } else {
        0
    };
    tail_size(total, files.len()) < CHUNK_SIZE && last > 0 && last < CHUNK_SIZE && first
        >= CHUNK_SIZE
}

fn count_message(found: usize, expected: usize) -> (r: String)
    ensures
        r@ == "cloud folder contains "@ + decimal(found as nat) + " chunks; expected "@ + decimal(
            expected as nat,
        ),
{
    let mut out: Vec<char> = Vec::new();
    push_str_chars(&mut out, "cloud folder contains ");
    push_decimal(&mut out, found as u64);
    push_str_chars(&mut out, " chunks; expected ");
    push_decimal(&mut out, expected as u64);
    proof {
        assert(out@ =~= "cloud folder contains "@ + decimal(found as nat) + " chunks; expected "@
            + decimal(expected as nat));
    }
    string_from_chars(out.as_slice())
}

/// Puts the chunk files of a folder in order, given how many chunks the file
/// has and its size. When every file carries a number, they are sorted by
/// it and must be numbered `1..=expected_chunks` (`Ok(false)`). When none
/// does, the listing is taken as newest first and reversed, unless its sizes
/// show it already runs oldest first (`Ok(true)`). A wrong count, or a mix
/// of numbered and unnumbered files, is an error.
pub fn order_cloud_chunks(secret: &str, files: &mut Vec<CloudFile>, expected_chunks: usize, total_size: u64) -> (r: Result<bool, String>)
    ensures
        old(files)@.len() != expected_chunks ==> (r matches Err(e) && e@ == "cloud folder contains "@
            + decimal(old(files)@.len()) + " chunks; expected "@ + decimal(expected_chunks as nat))
            && final(files)@ == old(files)@,
        old(files)@.len() == expected_chunks && (forall|i: int| 0 <= i < old(files)@.len() ==>
            #[trigger] file_index(secret@, old(files)@[i]) is Some) ==> {
            &&& final(files)@.to_multiset() == old(files)@.to_multiset()
            &&& forall|i: int, j: int| 0 <= i < j < final(files)@.len() ==> (#[trigger] file_index(
                secret@,
                final(files)@[i],
            )).unwrap() <= (#[trigger] file_index(secret@, final(files)@[j])).unwrap()
            &&& (r is Ok) == (old(files)@.len() <= u32::MAX && forall|i: int| 0 <= i < final(files)@.len() ==> #[trigger] file_index(
                secret@,
                final(files)@[i],
            ) == Some((i + 1) as u32))
            &&& r is Ok ==> r == Ok::<bool, String>(false)
            &&& r matches Err(e) ==> e@ == "cloud folder has missing or duplicate chunk indexes"@
        },
        old(files)@.len() == expected_chunks && (exists|i: int| 0 <= i < old(files)@.len()
            && #[trigger] file_index(secret@, old(files)@[i]) is Some) && (exists|i: int|
            0 <= i < old(files)@.len() && #[trigger] file_index(secret@, old(files)@[i]) is None)
            ==> (r matches Err(e) && e@ == "cloud folder mixes recognized and unrecognized chunk indexes"@)
            && final(files)@ == old(files)@,
        old(files)@.len() == expected_chunks && (forall|i: int| 0 <= i < old(files)@.len() ==>
            #[trigger] file_index(secret@, old(files)@[i]) is None) && old(files)@.len() > 0 ==> r
            == Ok::<bool, String>(true) && final(files)@ == (if already_oldest_first(old(files)@, total_size) {
            old(files)@
        } else {
            old(files)@.reverse()
        }),
{
    let n = files.len();
    if n != expected_chunks {
        return Err(count_message(n, expected_chunks));
    }
    let ghost orig = files@;
    let mut keys: Vec<Option<u32>> = Vec::new();
    let mut recognized: usize = 0;
    let mut i: usize = 0;
    while i < n
        invariant
            n == files@.len(),
            files@ == orig,
            i <= n,
            keys@.len() == i,
            recognized <= i,
            forall|k: int| 0 <= k < i ==> #[trigger] keys@[k] == file_index(secret@, orig[k]),
            recognized == 0 <==> forall|k: int| 0 <= k < i ==> #[trigger] file_index(secret@, orig[k]) is None,
            recognized == i <==> forall|k: int| 0 <= k < i ==> #[trigger] file_index(secret@, orig[k]) is Some,
        decreases n - i,
    {
        let key = chunk_index_from_name(secret, chunk_file_name(&files[i]));
        proof {
            assert(files@[i as int] == orig[i as int]);
            assert(key == file_index(secret@, orig[i as int]));
        }
        let ghost old_rec = recognized;
        if key.is_some() {
            recognized = recognized + 1;
        }
        keys.push(key);
        proof {
            if key.is_some() {
                assert(file_index(secret@, orig[i as int]) is Some);
                assert(!(forall|k: int| 0 <= k < i + 1 ==> #[trigger] file_index(secret@, orig[k]) is None));
                if old_rec == i {
                    assert forall|k: int| 0 <= k < i + 1 implies #[trigger] file_index(secret@, orig[k]) is Some by {
                        if k < i {
                            assert(file_index(secret@, orig[k]) is Some);
                        }
                    }
                } else {
                    assert(!(forall|k: int| 0 <= k < i ==> #[trigger] file_index(secret@, orig[k]) is Some));
                    let w = choose|w: int| 0 <= w < i && !(#[trigger] file_index(secret@, orig[w]) is Some);
                    assert(!(forall|k: int| 0 <= k < i + 1 ==> #[trigger] file_index(secret@, orig[k]) is Some));
                }
            } else {
                assert(file_index(secret@, orig[i as int]) is None);
                assert(!(forall|k: int| 0 <= k < i + 1 ==> #[trigger] file_index(secret@, orig[k]) is Some));
                if old_rec == 0 {
                    assert forall|k: int| 0 <= k < i + 1 implies #[trigger] file_index(secret@, orig[k]) is None by {
                        if k < i {
                            assert(file_index(secret@, orig[k]) is None);
                        }
                    }
                } else {
                    assert(!(forall|k: int| 0 <= k < i ==> #[trigger] file_index(secret@, orig[k]) is None));
                    let w = choose|w: int| 0 <= w < i && !(#[trigger] file_index(secret@, orig[w]) is None);
                    assert(!(forall|k: int| 0 <= k < i + 1 ==> #[trigger] file_index(secret@, orig[k]) is None));
                }
            }
        }
        i = i + 1;
    }
    if recognized == n {
        let mut sorted: Vec<CloudFile> = Vec::new();
        let mut sorted_keys: Vec<u32> = Vec::new();
        let mut rest: Vec<CloudFile> = Vec::new();
        std::mem::swap(&mut rest, files);
        let mut k: usize = 0;
        proof {
            broadcast use vstd::seq_lib::group_to_multiset_ensures;
            assert(rest@ =~= orig.skip(0));
            assert(sorted@.to_multiset() =~= Multiset::empty());
        }
        while k < n
            invariant
                n == orig.len(),
                k <= n,
                keys@.len() == n,
                forall|m: int| 0 <= m < n ==> #[trigger] keys@[m] == file_index(secret@, orig[m]),
                forall|m: int| 0 <= m < n ==> #[trigger] file_index(secret@, orig[m]) is Some,
                rest@ == orig.skip(k as int),
                keyed_sorted(secret@, sorted@, sorted_keys@),
                sorted@.to_multiset().add(rest@.to_multiset()) == orig.to_multiset(),
            decreases n - k,
        {
            let ghost rest_before = rest@;
            let f = rest.remove(0);
            let kf = keys[k].unwrap();
            proof {
                assert(f == orig[k as int]);
                broadcast use vstd::seq_lib::group_to_multiset_ensures;
                assert(rest_before =~= seq![f] + rest@);
                vstd::seq_lib::lemma_multiset_commutative(seq![f], rest@);
                assert(seq![f].to_multiset() =~= Multiset::singleton(f)) by {
                    assert(seq![f] =~= Seq::<CloudFile>::empty().push(f));
                }
            }
            insert_by_key(&mut sorted, &mut sorted_keys, f, kf, Ghost(secret@));
            proof {
                assert(rest@ =~= orig.skip(k + 1));
                assert(sorted@.to_multiset().add(rest@.to_multiset()) =~= orig.to_multiset());
            }
            k = k + 1;
        }
        proof {
            broadcast use vstd::seq_lib::group_to_multiset_ensures;
            assert(rest@.len() == 0);
            assert(rest@.to_multiset() =~= Multiset::empty());
            assert(sorted@.to_multiset() =~= orig.to_multiset());
            assert(sorted@.len() == sorted@.to_multiset().len());
            assert(orig.len() == orig.to_multiset().len());
        }
        let small = (n as u64) <= 0xffff_ffff;
        let mut ok = small;
        let mut j: usize = 0;
        while j < n
            invariant
                j <= n,
                sorted_keys@.len() == n,
                small == (n <= u32::MAX),
                ok == (small && forall|m: int| 0 <= m < j ==> #[trigger] sorted_keys@[m] == (m + 1) as u32),
            decreases n - j,
        {
            if small && sorted_keys[j] != (j + 1) as u32 {
                ok = false;
            }
            j = j + 1;
        }
        *files = sorted;
        proof {
            let v = files@;
            let ks = sorted_keys@;
            assert forall|a: int, b: int| 0 <= a < b < v.len() implies (#[trigger] file_index(secret@, v[a])).unwrap()
                <= (#[trigger] file_index(secret@, v[b])).unwrap() by {
                assert(file_index(secret@, v[a]) == Some(ks[a]));
                assert(file_index(secret@, v[b]) == Some(ks[b]));
                assert(ks[a] <= ks[b]);
            }
            if ok {
                assert forall|m: int| 0 <= m < v.len() implies #[trigger] file_index(secret@, v[m]) == Some((m + 1) as u32) by {
                    assert(file_index(secret@, v[m]) == Some(ks[m]));
                    assert(ks[m] == (m + 1) as u32);
                }
            } else if small {
                let w = choose|w: int| 0 <= w < n && !(#[trigger] ks[w] == (w + 1) as u32);
                assert(file_index(secret@, v[w]) == Some(ks[w]));
                assert(!(forall|m: int| 0 <= m < v.len() ==> #[trigger] file_index(secret@, v[m]) == Some((m + 1) as u32)));
            }
        }
        if ok {
            Ok(false)
        } else {
            Err("cloud folder has missing or duplicate chunk indexes".to_string())
        }
    } else if recognized != 0 {
        Err("cloud folder mixes recognized and unrecognized chunk indexes".to_string())
    } else {
        let full = if n == 0 { 0 } else { (n - 1) as u64 };
        let before = match CHUNK_SIZE.checked_mul(full) {
            Some(v) => v,
            None => u64::MAX,
        };
        let tail = if total_size >= before {
            total_size - before
        } else {
            0
        };
        let first = files[0].size_bytes;
        let last = files[n - 1].size_bytes;
        let already = tail < CHUNK_SIZE && last > 0 && last < CHUNK_SIZE && first >= CHUNK_SIZE;
        if !already {
            reverse_files(files);
        }
        Ok(true)
    }
}

} // verus!
