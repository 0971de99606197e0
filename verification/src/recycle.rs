//! The recycle bin and renames: what a deletion sends to the cloud, and the
//! marks the tree keeps of what sits in the bin.
use vstd::prelude::*;
use crate::share::{alien_prefix, is_chunked_text, starts_with};
use crate::text::{chars_of, has_prefix};
use crate::transfer::upload_folder_of;
use crate::vfs::{NodeType, VfsNode, VfsTree};

verus! {

broadcast use vstd::std_specs::hash::group_hash_axioms;

/// A node that is a folder on the cloud: a folder, or a chunked file, whose
/// chunks sit in a folder of their own.
pub open spec fn is_physical_folder_of(n: VfsNode) -> bool {
    n.node_type == NodeType::Directory || (n.node_type == NodeType::File && is_chunked_text(n.chunks@))
}

/// Whether the cloud holds node `n` as a folder.
pub fn is_physical_folder(n: &VfsNode) -> (r: bool)
    ensures
        r == is_physical_folder_of(*n),
{
    match n.node_type {
        NodeType::Directory => true,
        NodeType::File => crate::share::is_chunked(n),
    }
}

/// Whether a node points at someone else's copy, which the cloud does not
/// hold for this account.
pub fn is_alien(n: &VfsNode) -> (r: bool)
    ensures
        r == starts_with(n.lanzou_id@, alien_prefix()),
{
    let alien = chars_of("alien://");
    proof {
        reveal_strlit("alien://");
        assert(alien@ =~= alien_prefix());
    }
    has_prefix(chars_of(n.lanzou_id.as_str()).as_slice(), alien.as_slice())
}

/// The cloud folder of folder `pid`: the root's for 0 or an unknown folder.
/// A restored file is moved back there.
pub fn parent_cloud_folder(tree: &VfsTree, pid: u64) -> (r: String)
    ensures
        r@ == upload_folder_of(*tree, pid),
{
    if pid != 0 {
        match tree.nodes.get(&pid) {
            Some(n) => n.lanzou_id.clone(),
            None => tree.root_lanzou_id.clone(),
        }
    } else {
        tree.root_lanzou_id.clone()
    }
}

/// Node `n` with its bin mark set to `trashed`, stamped `now`.
pub open spec fn rebinned(n: VfsNode, trashed: bool, now: u64) -> VfsNode {
    VfsNode { is_trashed: trashed, time: now, ..n }
}

/// Puts node `id` into the recycle bin (`trashed`) or takes it out, stamped
/// `now`; a node the tree does not hold is left alone.
pub fn set_trashed(tree: &mut VfsTree, id: u64, trashed: bool, now: u64)
    ensures
        final(tree).nodes@ == if old(tree).nodes@.contains_key(id) {
            old(tree).nodes@.insert(id, rebinned(old(tree).nodes@[id], trashed, now))
        } else {
            old(tree).nodes@
        },
        final(tree).next_id == old(tree).next_id,
        final(tree).last_modified == old(tree).last_modified,
        final(tree).root_lanzou_id == old(tree).root_lanzou_id,
        final(tree).deeperdir_lanzou_id == old(tree).deeperdir_lanzou_id,
        final(tree).file_path == old(tree).file_path,
{
    let updated = match tree.nodes.get(&id) {
        Some(n) => {
            let mut u = n.duplicate();
            u.is_trashed = trashed;
            u.time = now;
            Some(u)
        },
        None => None,
    };
    match updated {
        Some(u) => {
            tree.nodes.insert(id, u);
        },
        None => {},
    }
}

/// The recycle bin: a live node put into the bin leaves its folder's
/// listing and shows in the bin; taken back out, it is in its folder again
/// and exactly as it was before, but for its time stamp.
pub proof fn law_restore_undoes_trash(n: VfsNode, trashed_at: u64, restored_at: u64)
    requires
        !n.is_trashed,
        !n.is_deleted,
    ensures
        !(crate::vfs::child_filter(n.pid, true))(rebinned(n, true, trashed_at)),
        (crate::vfs::in_bin())(rebinned(n, true, trashed_at)),
        rebinned(rebinned(n, true, trashed_at), false, restored_at) == (VfsNode { time: restored_at, ..n }),
        (crate::vfs::child_filter(n.pid, true))(rebinned(rebinned(n, true, trashed_at), false, restored_at)),
        !(crate::vfs::in_bin())(rebinned(rebinned(n, true, trashed_at), false, restored_at)),
{
}

/// Renames node `id` to `new_name`, stamped `now`; fails for a node the
/// tree does not hold.
pub fn rename_node(tree: &mut VfsTree, id: u64, new_name: String, now: u64) -> (r: Result<(), String>)
    ensures
        old(tree).nodes@.contains_key(id) <==> r is Ok,
        r is Ok ==> final(tree).nodes@ == old(tree).nodes@.insert(
            id,
            VfsNode { name: new_name, time: now, ..old(tree).nodes@[id] },
        ),
        r is Err ==> (r matches Err(e) && e@ == "Item not found in local VFS"@) && final(tree).nodes@
            == old(tree).nodes@,
        final(tree).next_id == old(tree).next_id,
        final(tree).last_modified == old(tree).last_modified,
        final(tree).root_lanzou_id == old(tree).root_lanzou_id,
        final(tree).deeperdir_lanzou_id == old(tree).deeperdir_lanzou_id,
        final(tree).file_path == old(tree).file_path,
{
    let updated = match tree.nodes.get(&id) {
        Some(n) => {
            let mut u = n.duplicate();
            u.name = new_name;
            u.time = now;
            Some(u)
        },
        None => None,
    };
    match updated {
        Some(u) => {
            tree.nodes.insert(id, u);
            Ok(())
        },
        None => Err("Item not found in local VFS".to_string()),
    }
}

/// What a deletion of a node sends to the cloud.
pub enum CloudDeletion {
    /// The node is already in the bin: nothing.
    Skip,
    /// Delete the folder with this id.
    Folder(String),
    /// Delete the file with this id.
    File(String),
}

/// What moving node `n` to the recycle bin asks of the cloud: nothing when
/// it is already there, else its deletion as a folder or as a file.
pub fn trash_request(n: &VfsNode) -> (r: CloudDeletion)
    ensures
        n.is_trashed ==> r is Skip,
        !n.is_trashed && is_physical_folder_of(*n) ==> (r matches CloudDeletion::Folder(id) && id@
            == n.lanzou_id@),
        !n.is_trashed && !is_physical_folder_of(*n) ==> (r matches CloudDeletion::File(id) && id@
            == n.lanzou_id@),
{
    if n.is_trashed {
        CloudDeletion::Skip
    } else if is_physical_folder(n) {
        CloudDeletion::Folder(n.lanzou_id.clone())
    } else {
        CloudDeletion::File(n.lanzou_id.clone())
    }
}

/// Whether a node in the bin is erased from the cloud for good: only what
/// sits in the bin and is held by this account.
pub fn erased_on_cloud(n: &VfsNode) -> (r: bool)
    ensures
        r == (n.is_trashed && !starts_with(n.lanzou_id@, alien_prefix())),
{
    n.is_trashed && !is_alien(n)
}

} // verus!
