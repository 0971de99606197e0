//! Keeping the tree in step across devices through the cloud: each push
//! stores the tree's text as `heriheri_tree_[{phone}_]{time}.txt` in the
//! `.vfs` folder and deletes the older copies; a pull takes the newest copy
//! when it is newer than the local tree and merges it in.
use vstd::prelude::*;
use crate::external::{regex_capture, regex_group};
use crate::share::starts_with;
use crate::text::{chars_of, decimal, has_prefix, parse_radix, parse_unsigned, push_decimal,
    push_str_chars, str_eq, string_from_chars};

verus! {

/// The name of the folder that holds the tree's copies.
pub const SYNC_FOLDER_NAME: &'static str = ".vfs";

/// The name of the file the account's tree is kept in on this device.
pub open spec fn local_tree_file_spec(phone: Seq<char>) -> Seq<char> {
    if phone.len() == 0 {
        "heriheri_tree.txt"@
    } else {
        "heriheri_tree_"@ + phone + ".txt"@
    }
}

pub fn local_tree_file_name(phone: &str) -> (r: String)
    ensures
        r@ == local_tree_file_spec(phone@),
{
    if chars_of(phone).len() == 0 {
        "heriheri_tree.txt".to_string()
    } else {
        let mut out = chars_of("heriheri_tree_");
        push_str_chars(&mut out, phone);
        push_str_chars(&mut out, ".txt");
        string_from_chars(out.as_slice())
    }
}

/// The pattern a copy of the tree's name follows, its time in group 1.
pub open spec fn tree_file_pattern_spec(phone: Seq<char>) -> Seq<char> {
    if phone.len() == 0 {
        "heriheri_tree_(\\d+)\\.txt"@
    } else {
        "heriheri_tree_"@ + phone + "_(\\d+)\\.txt"@
    }
}

/// The pattern of the names of the account's copies of the tree; the phone
/// number is put in as it is.
pub fn tree_file_pattern(phone: &str) -> (r: String)
    ensures
        r@ == tree_file_pattern_spec(phone@),
{
    if chars_of(phone).len() == 0 {
        "heriheri_tree_(\\d+)\\.txt".to_string()
    } else {
        let mut out = chars_of("heriheri_tree_");
        push_str_chars(&mut out, phone);
        push_str_chars(&mut out, "_(\\d+)\\.txt");
        string_from_chars(out.as_slice())
    }
}

/// The start of the names of the account's copies of the tree.
pub open spec fn tree_file_prefix_spec(phone: Seq<char>) -> Seq<char> {
    if phone.len() == 0 {
        "heriheri_tree_"@
    } else {
        "heriheri_tree_"@ + phone + "_"@
    }
}

pub fn tree_file_prefix(phone: &str) -> (r: String)
    ensures
        r@ == tree_file_prefix_spec(phone@),
{
    let mut out = chars_of("heriheri_tree_");
    if chars_of(phone).len() > 0 {
        push_str_chars(&mut out, phone);
        push_str_chars(&mut out, "_");
    }
    string_from_chars(out.as_slice())
}

/// The name a push stores the tree under: the prefix, the tree's time, `.txt`.
pub fn tree_file_name(prefix: &str, timestamp: u64) -> (r: String)
    ensures
        r@ == prefix@ + decimal(timestamp as nat) + ".txt"@,
{
    let mut out = chars_of(prefix);
    push_decimal(&mut out, timestamp);
    push_str_chars(&mut out, ".txt");
    string_from_chars(out.as_slice())
}

/// A file of the `.vfs` folder as the listing gives it.
pub struct SyncFile {
    pub name: Option<String>,
    pub id: Option<String>,
}

pub open spec fn opt_seq(o: Option<String>) -> Seq<char> {
    match o {
        Some(s) => s@,
        None => Seq::<char>::empty(),
    }
}

/// The time a file's name carries under `pattern`: none when the name does
/// not match, 0 when its digits do not fit.
pub open spec fn tree_file_time(pattern: Seq<char>, f: SyncFile) -> Option<u64> {
    match f.name {
        Some(n) => match regex_group(pattern, n@, 1) {
            Some(g) => Some(
                match parse_unsigned(g, 10, u64::MAX as nat) {
                    Some(v) => v as u64,
                    None => 0,
                },
            ),
            None => None,
        },
        None => None,
    }
}

/// The newest copy among `fs`: its time and id, the first of the newest
/// winning; time 0 and no id when none is newer than 0.
pub open spec fn newest_scan(pattern: Seq<char>, fs: Seq<SyncFile>) -> (u64, Seq<char>)
    decreases fs.len(),
{
    if fs.len() == 0 {
        (0, Seq::<char>::empty())
    } else {
        let st = newest_scan(pattern, fs.drop_last());
        match tree_file_time(pattern, fs.last()) {
            Some(t) => if t > st.0 {
                (t, opt_seq(fs.last().id))
            } else {
                st
            },
            None => st,
        }
    }
}

/// The time and id of the newest copy of the tree among the files of the
/// `.vfs` folder.
pub fn newest_tree_file(files: &Vec<SyncFile>, pattern: &str) -> (r: (u64, String))
    ensures
        (r.0, r.1@) == newest_scan(pattern@, files@),
{
    let mut best: u64 = 0;
    let mut best_id = String::new();
    let mut i: usize = 0;
    while i < files.len()
        invariant
            i <= files@.len(),
            (best, best_id@) == newest_scan(pattern@, files@.take(i as int)),
        decreases files.len() - i,
    {
        let f = &files[i];
        proof {
            assert(files@.take(i + 1).drop_last() =~= files@.take(i as int));
            assert(files@.take(i + 1).last() == files@[i as int]);
        }
        match &f.name {
            Some(n) => {
                match regex_capture(pattern, n.as_str(), 1) {
                    Some(g) => {
                        let cs = chars_of(g.as_str());
                        let t: u64 = match parse_radix(cs.as_slice(), 10, 0xffff_ffff_ffff_ffff) {
                            Some(v) => v,
                            None => 0,
                        };
                        if t > best {
                            best = t;
                            best_id = match &f.id {
                                Some(s) => s.clone(),
                                None => String::new(),
                            };
                        }
                    },
                    None => {},
                }
            },
            None => {},
        }
        i = i + 1;
    }
    proof {
        assert(files@.take(files@.len() as int) =~= files@);
    }
    (best, best_id)
}

/// A pull goes ahead only for a copy newer than the local tree, and one
/// with an id.
pub fn should_pull(newest: u64, newest_id: &str, local_timestamp: u64) -> (r: bool)
    ensures
        r == (newest > local_timestamp && newest_id@.len() > 0),
{
    newest > local_timestamp && chars_of(newest_id).len() > 0
}

pub open spec fn stale_scan(prefix: Seq<char>, new_id: Seq<char>, fs: Seq<SyncFile>) -> Seq<Seq<char>>
    decreases fs.len(),
{
    if fs.len() == 0 {
        Seq::<Seq<char>>::empty()
    } else {
        let rest = stale_scan(prefix, new_id, fs.drop_last());
        let f = fs.last();
        match (f.name, f.id) {
            (Some(n), Some(id)) => if starts_with(n@, prefix) && id@ != new_id {
                rest.push(id@)
            } else {
                rest
            },
            _ => rest,
        }
    }
}

pub open spec fn string_views(v: Seq<String>) -> Seq<Seq<char>> {
    v.map_values(|s: String| s@)
}

/// The ids of the older copies a push deletes, in listing order: every
/// file whose name starts with the prefix, but the one just stored.
pub fn stale_tree_files(files: &Vec<SyncFile>, prefix: &str, new_id: &str) -> (r: Vec<String>)
    ensures
        string_views(r@) == stale_scan(prefix@, new_id@, files@),
{
    let pc = chars_of(prefix);
    let mut out: Vec<String> = Vec::new();
    let mut i: usize = 0;
    while i < files.len()
        invariant
            i <= files@.len(),
            pc@ == prefix@,
            string_views(out@) == stale_scan(prefix@, new_id@, files@.take(i as int)),
        decreases files.len() - i,
    {
        let f = &files[i];
        proof {
            assert(files@.take(i + 1).drop_last() =~= files@.take(i as int));
            assert(files@.take(i + 1).last() == files@[i as int]);
        }
        match (&f.name, &f.id) {
            (Some(n), Some(id)) => {
                let nc = chars_of(n.as_str());
                if has_prefix(nc.as_slice(), pc.as_slice()) && !str_eq(id.as_str(), new_id) {
                    let ghost before = out@;
                    out.push(id.clone());
                    proof {
                        assert(string_views(out@) =~= string_views(before).push(id@));
                    }
                }
            },
            _ => {},
        }
        i = i + 1;
    }
    proof {
        assert(files@.take(files@.len() as int) =~= files@);
    }
    out
}

/// What a failed push reports.
pub fn push_failure(error: &str) -> (r: String)
    ensures
        r@ == "Sync Push Failed: "@ + error@,
{
    let mut out = chars_of("Sync Push Failed: ");
    push_str_chars(&mut out, error);
    string_from_chars(out.as_slice())
}

/// A top folder of the drive as the listing gives it: its name, and its id
/// as text or as a number.
pub struct SyncFolderEntry {
    pub name: Option<String>,
    pub id_text: Option<String>,
    pub id_number: Option<u64>,
}

/// The id an entry named `.vfs` offers: its text id when not empty, else
/// its number; none else.
pub open spec fn entry_sync_id(f: SyncFolderEntry) -> Option<Seq<char>> {
    if opt_seq(f.name) == ".vfs"@ {
        if opt_seq(f.id_text).len() > 0 {
            Some(opt_seq(f.id_text))
        } else {
            match f.id_number {
                Some(n) => Some(decimal(n as nat)),
                None => None,
            }
        }
    } else {
        None
    }
}

/// The id of the `.vfs` folder among the drive's top folders: the first
/// entry that offers one; none when it has to be created.
pub fn find_sync_folder(folders: &Vec<SyncFolderEntry>) -> (r: Option<String>)
    ensures
        r is None <==> forall|j: int| 0 <= j < folders@.len() ==> entry_sync_id(#[trigger] folders@[j]) is None,
        r matches Some(id) ==> exists|j: int|
            0 <= j < folders@.len() && entry_sync_id(#[trigger] folders@[j]) == Some(id@) && forall|i: int|
                0 <= i < j ==> entry_sync_id(#[trigger] folders@[i]) is None,
{
    let mut i: usize = 0;
    while i < folders.len()
        invariant
            i <= folders@.len(),
            forall|j: int| 0 <= j < i ==> entry_sync_id(#[trigger] folders@[j]) is None,
        decreases folders.len() - i,
    {
        let f = &folders[i];
        let name_is = match &f.name {
            Some(n) => str_eq(n.as_str(), ".vfs"),
            None => {
                proof {
                    reveal_strlit(".vfs");
                    assert(opt_seq(folders@[i as int].name).len() == 0);
                }
                false
            },
        };
        if name_is {
            let text = match &f.id_text {
                Some(t) => t.clone(),
                None => String::new(),
            };
            proof {
                assert(text@ == opt_seq(folders@[i as int].id_text));
                assert(opt_seq(folders@[i as int].name) == ".vfs"@);
            }
            if chars_of(text.as_str()).len() > 0 {
                proof {
                    assert(entry_sync_id(folders@[i as int]) == Some(text@));
                }
                return Some(text);
            }
            match f.id_number {
                Some(n) => {
                    let cs = crate::text::decimal_chars(n);
                    return Some(string_from_chars(cs.as_slice()));
                },
                None => {},
            }
        }
        i = i + 1;
    }
    None
}

} // verus!
