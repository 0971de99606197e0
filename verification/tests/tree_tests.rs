use heriheri::nav::{
    all_parents_leave, breadcrumbs, climb_leaves_table, climb_reaches_root, drop_group_id,
    expand_home, folder_tree, get_descendants, get_full_path, resolve_path, search_nodes,
    split_destination,
};
use heriheri::recycle::{
    erased_on_cloud, is_physical_folder, parent_cloud_folder, rename_node, set_trashed,
    trash_request, CloudDeletion,
};
use heriheri::transfer::{
    commit_upload, instant_copy, physical_folder, rebuild_target, record_move, upload_target_folder,
};
use heriheri::tsv::tsv_is_readable;
use heriheri::vfs::{get_safe_lanzou_ext, NodeType, SortKey, VfsTree, sort_nodes};
use std::path::PathBuf;

/// Root(0) > Docs(1) > Sub(2) > Deep(5); Docs holds a.txt(3), Sub holds b.bin(4, three chunks).
fn sample_tree() -> VfsTree {
    let mut t = VfsTree::new("root_lz".to_string(), "deep_lz".to_string(), PathBuf::from("t.tsv"));
    let docs = t.create_folder(0, "Docs", "f_docs", 10);
    let sub = t.create_folder(docs, "Sub", "f_sub", 11);
    t.add_file(docs, "a.txt", "lz_a", "10", "md5a", "txt", 1, 12);
    t.add_file(sub, "b.bin", "lz_b", "20", "md5b", "bin", 3, 13);
    t.create_folder(sub, "Deep", "f_deep", 14);
    t
}

#[test]
fn node_type_codes_round_trip() {
    assert_eq!(NodeType::from_str("D"), NodeType::Directory);
    assert_eq!(NodeType::from_str("F"), NodeType::File);
    assert_eq!(NodeType::from_str("anything"), NodeType::File);
    assert_eq!(NodeType::Directory.as_str(), "D");
    assert_eq!(NodeType::File.as_str(), "F");
}

#[test]
fn ids_are_handed_out_in_order() {
    let t = sample_tree();
    assert_eq!(t.next_id, 6);
    assert_eq!(t.last_modified, 14);
    let b = t.nodes.get(&4).unwrap();
    assert_eq!(b.pid, 2);
    assert_eq!(b.chunks, "3");
    let a = t.nodes.get(&3).unwrap();
    assert_eq!(a.chunks, "1");
    assert_eq!(a.node_type, NodeType::File);
}

#[test]
fn listing_puts_folders_first_then_names() {
    let mut t = VfsTree::new("r".to_string(), "d".to_string(), PathBuf::from("x"));
    t.add_file(0, "b.txt", "l1", "1", "m1", "txt", 1, 1);
    t.add_file(0, "a.txt", "l2", "1", "m2", "txt", 1, 2);
    t.create_folder(0, "zeta", "l3", 3);
    let names: Vec<String> = t.list_dir(0).into_iter().map(|n| n.name).collect();
    assert_eq!(names, vec!["zeta", "a.txt", "b.txt"]);
}

#[test]
fn listing_hides_tombstones_but_not_the_bin() {
    let mut t = sample_tree();
    set_trashed(&mut t, 3, true, 20);
    t.delete_node(2, 21);
    let names: Vec<String> = t.list_dir(1).into_iter().map(|n| n.name).collect();
    assert_eq!(names, vec!["a.txt"]);
    assert!(t.select_children(1, true).is_empty());
    let bin: Vec<u64> = t.list_bin().into_iter().map(|n| n.id).collect();
    assert_eq!(bin, vec![3]);
}

#[test]
fn sorting_by_id() {
    let t = sample_tree();
    let ids: Vec<u64> = sort_nodes(t.entries().into_iter().map(|e| e.1).collect(), SortKey::Id)
        .into_iter()
        .map(|n| n.id)
        .collect();
    assert_eq!(ids, vec![1, 2, 3, 4, 5]);
}

#[test]
fn moves_report_their_errors() {
    let mut t = sample_tree();
    assert_eq!(t.move_node(99, 0, 30), Err("Node not found".to_string()));
    assert_eq!(t.move_node(2, 2, 30), Err("Cannot move a folder into itself".to_string()));
    assert_eq!(t.last_modified, 14);
    assert_eq!(t.move_node(3, 2, 31), Ok(()));
    let a = t.nodes.get(&3).unwrap();
    assert_eq!((a.pid, a.time), (2, 31));
    assert_eq!(t.last_modified, 31);
}

#[test]
fn deleting_tombstones_the_whole_subtree() {
    let mut t = sample_tree();
    t.delete_node(2, 40);
    for id in [2u64, 4, 5] {
        let n = t.nodes.get(&id).unwrap();
        assert!(n.is_deleted, "node {id}");
        assert_eq!(n.time, 40);
    }
    for id in [1u64, 3] {
        assert!(!t.nodes.get(&id).unwrap().is_deleted);
    }
    assert_eq!(t.nodes.len(), 5);
}

#[test]
fn merge_takes_the_later_write_and_rescues_orphans() {
    let local = sample_tree();
    let mut cloud = sample_tree();
    cloud.move_node(3, 0, 50).unwrap();
    cloud.delete_node(1, 60);
    let mut local2 = local;
    local2.move_node(4, 2, 70).unwrap();
    let merged = local2.merge_with(&cloud, 99);
    // a.txt: the cloud's later move wins.
    assert_eq!(merged.nodes.get(&3).unwrap().pid, 0);
    // Docs is tombstoned in the cloud, Sub with it; b.bin's local write is
    // later, so it stays live, and as its parent is gone it is rescued.
    assert!(merged.nodes.get(&1).unwrap().is_deleted);
    let b = merged.nodes.get(&4).unwrap();
    assert!(!b.is_deleted);
    assert_eq!((b.pid, b.time), (0, 99));
    assert_eq!(merged.last_modified, 70);
}

#[test]
fn merging_a_tree_with_itself_changes_nothing() {
    let t = sample_tree();
    let merged = t.merge_with(&t, 123);
    assert_eq!(merged.nodes.len(), t.nodes.len());
    for (k, n) in t.nodes.iter() {
        let m = merged.nodes.get(k).unwrap();
        assert_eq!((m.pid, m.time, m.is_deleted, &m.name), (n.pid, n.time, n.is_deleted, &n.name));
    }
}

#[test]
fn safe_extensions() {
    assert_eq!(get_safe_lanzou_ext("TXT"), "txt");
    assert_eq!(get_safe_lanzou_ext("zip"), "zip");
    assert_eq!(get_safe_lanzou_ext("mkv"), "iso");
    assert_eq!(get_safe_lanzou_ext(""), "iso");
}

#[test]
fn tree_text_round_trips_one_node() {
    let mut t = VfsTree::new("R".to_string(), "D".to_string(), PathBuf::from("x"));
    t.add_file(0, "名字|x", "lz", "5", "m", "e", 1, 7);
    let text = t.to_tsv();
    // "名字|x" in Base64 is "5ZCN5a2XfHg=".
    assert_eq!(text, "V2|7|1|R|D\nF|1|0|5ZCN5a2XfHg=|lz|7|5|m|e|1|false|false\n");
    assert!(tsv_is_readable(&text));
    let back = VfsTree::from_tsv(&text, PathBuf::from("y")).unwrap();
    let n = back.nodes.get(&1).unwrap();
    assert_eq!(n.name, "名字|x");
    assert_eq!((n.pid, n.time, n.chunks.as_str()), (0, 7, "1"));
    assert_eq!(back.next_id, 2);
    assert_eq!(back.root_lanzou_id, "R");
    assert_eq!(back.deeperdir_lanzou_id, "D");
}

#[test]
fn tree_text_errors() {
    assert_eq!(
        VfsTree::from_tsv("\n  \n", PathBuf::from("x")).err(),
        Some("Empty tree file".to_string())
    );
    assert_eq!(
        VfsTree::from_tsv("V3|1|0|r\n", PathBuf::from("x")).err(),
        Some("Invalid or unsupported tree file version".to_string())
    );
}

#[test]
fn version_one_rows_rejoin_names_with_pipes() {
    let text = "V1|5|1|root\nF|9|0|a|b|lz|3|10|m|txt|1|true\nshort|row\n";
    assert!(tsv_is_readable(text));
    let t = VfsTree::from_tsv(text, PathBuf::from("x")).unwrap();
    let n = t.nodes.get(&9).unwrap();
    assert_eq!(n.name, "a|b");
    assert_eq!(n.lanzou_id, "lz");
    assert!(n.is_trashed);
    assert!(!n.is_deleted);
    assert_eq!(t.next_id, 10);
    assert_eq!(t.deeperdir_lanzou_id, "");
}

#[test]
fn unreadable_tree_texts_are_recognized() {
    // A version-1 row whose tail would start before its name.
    assert!(!tsv_is_readable("V1|0|0|r\nF|1|0|lz|1|2|3|4|true|true\n"));
    // An id at the top of the range leaves no next id.
    assert!(!tsv_is_readable("V2|0|0|r\nF|18446744073709551615|0|bg==|l|1|2|3|4|5\n"));
    assert!(tsv_is_readable(""));
}

#[test]
fn descendants_top_down_and_bottom_up() {
    let t = sample_tree();
    let down = get_descendants(&t, &vec![1], true);
    let mut sorted = down.clone();
    sorted.sort();
    assert_eq!(sorted, vec![1, 2, 3, 4, 5]);
    assert_eq!(down[0], 1);
    let pos = |v: &Vec<u64>, x: u64| v.iter().position(|&y| y == x).unwrap();
    assert!(pos(&down, 2) < pos(&down, 4));
    let up = get_descendants(&t, &vec![1], false);
    assert_eq!(*up.last().unwrap(), 1);
    assert!(pos(&up, 4) < pos(&up, 2));
}

#[test]
fn the_descendant_walk_is_fixed_and_bottom_up_reverses_it() {
    let t = sample_tree();
    let down = get_descendants(&t, &vec![1], true);
    assert_eq!(down, vec![1, 3, 2, 5, 4]);
    let mut up = get_descendants(&t, &vec![1], false);
    up.reverse();
    assert_eq!(up, down);
    assert_eq!(get_descendants(&t, &vec![3, 2], true), vec![2, 5, 4, 3]);
    assert_eq!(get_descendants(&t, &vec![2, 2], true), vec![2, 5, 4]);
}

#[test]
fn breadcrumbs_and_full_paths() {
    let t = sample_tree();
    let crumbs: Vec<(u64, String)> = breadcrumbs(&t, 5).into_iter().map(|b| (b.id, b.name)).collect();
    assert_eq!(
        crumbs,
        vec![
            (0, "All Files".to_string()),
            (1, "Docs".to_string()),
            (2, "Sub".to_string()),
            (5, "Deep".to_string())
        ]
    );
    assert_eq!(get_full_path(&t, 4), "/Docs/Sub/b.bin");
    assert_eq!(get_full_path(&t, 0), "/");
}

#[test]
fn search_ignores_case_and_shows_paths() {
    let t = sample_tree();
    let hits = search_nodes(&t, "B.BIN");
    assert_eq!(hits.len(), 1);
    assert_eq!(hits[0].0.id, 4);
    assert_eq!(hits[0].1, "All Files > Docs > Sub");
    assert!(search_nodes(&t, "nothing").is_empty());
}

#[test]
fn prompt_paths_resolve() {
    let t = sample_tree();
    assert_eq!(resolve_path(&t, 0, "  Docs/Sub  "), Ok(2));
    assert_eq!(resolve_path(&t, 2, ".."), Ok(1));
    assert_eq!(resolve_path(&t, 2, "/"), Ok(0));
    assert_eq!(resolve_path(&t, 2, ""), Ok(2));
    assert_eq!(resolve_path(&t, 0, "/Docs/a.txt"), Ok(3));
    assert_eq!(resolve_path(&t, 0, "Docs/nope"), Err("'nope' not found".to_string()));
}

#[test]
fn command_line_arguments() {
    let (files, dest) = split_destination(vec!["a".to_string(), "b".to_string(), "dir".to_string()]);
    assert_eq!(files, vec!["a", "b"]);
    assert_eq!(dest, "dir");
    let (files, dest) = split_destination(vec!["only".to_string()]);
    assert_eq!(files, vec!["only"]);
    assert_eq!(dest, ".");
    assert_eq!(expand_home("~/x/y", "/home/u"), "/home/u/x/y");
    assert_eq!(expand_home("~", "/home/u"), "/home/u");
    assert_eq!(expand_home("~x", "/home/u"), "~x");
    assert_eq!(expand_home("/abs", "/home/u"), "/abs");
}

#[test]
fn uploads_go_to_the_folders_cloud_id() {
    let t = sample_tree();
    assert_eq!(upload_target_folder(&t, 0), Ok("root_lz".to_string()));
    assert_eq!(upload_target_folder(&t, 2), Ok("f_sub".to_string()));
    assert_eq!(upload_target_folder(&t, 77), Ok("root_lz".to_string()));
    let empty = VfsTree::new(String::new(), String::new(), PathBuf::from("x"));
    assert_eq!(upload_target_folder(&empty, 0), Err("VFS Offline".to_string()));
}

#[test]
fn deep_folders_live_in_the_overflow_folder() {
    let t = sample_tree();
    assert_eq!(physical_folder(&t, 0), "root_lz");
    assert_eq!(physical_folder(&t, 1), "f_docs");
    assert_eq!(physical_folder(&t, 2), "deep_lz");
    assert_eq!(physical_folder(&t, 5), "deep_lz");
    assert_eq!(physical_folder(&t, 42), "root_lz");
}

#[test]
fn committing_an_upload_replaces_alien_twins() {
    let mut t = sample_tree();
    let alien = t.add_file(2, "b copy.bin", "alien://payload", "20", "md5b", "bin", 3, 15);
    let other = t.add_file(1, "elsewhere.bin", "alien://payload", "20", "md5b", "bin", 3, 15);
    let id = commit_upload(&mut t, 2, "b2.bin", "lz_new", "20", "md5b", "bin", 1, 16);
    assert_eq!(id, 8);
    assert!(t.nodes.get(&alien).unwrap().is_deleted);
    assert!(!t.nodes.get(&other).unwrap().is_deleted);
    let n = t.nodes.get(&id).unwrap();
    assert_eq!((n.pid, n.lanzou_id.as_str(), n.md5.as_str(), n.time), (2, "lz_new", "md5b", 16));
    assert_eq!(t.last_modified, 16);
}

#[test]
fn a_file_already_held_is_copied_without_upload() {
    let mut t = sample_tree();
    assert!(instant_copy(&mut t, 1, "again.bin", "20", "md5b", "bin", 30));
    let n = t.nodes.get(&6).unwrap();
    assert_eq!((n.lanzou_id.as_str(), n.chunks.as_str(), n.pid), ("lz_b", "3", 1));
    let before = t.nodes.len();
    assert!(!instant_copy(&mut t, 1, "new.bin", "1", "unknown", "bin", 31));
    assert_eq!(t.nodes.len(), before);
    assert_eq!(t.next_id, 7);
}

#[test]
fn moves_are_recorded() {
    let mut t = sample_tree();
    record_move(&mut t, 4, 1, Some("lz_moved".to_string()), 50);
    let n = t.nodes.get(&4).unwrap();
    assert_eq!((n.pid, n.time, n.lanzou_id.as_str(), n.name.as_str()), (1, 50, "lz_moved", "b.bin"));
    record_move(&mut t, 3, 2, None, 51);
    assert_eq!(t.nodes.get(&3).unwrap().lanzou_id, "lz_a");
    record_move(&mut t, 99, 2, None, 52);
    assert_eq!(t.nodes.len(), 5);
}

#[test]
fn the_recycle_bin() {
    let mut t = sample_tree();
    let a = t.nodes.get(&3).unwrap().clone();
    let b = t.nodes.get(&4).unwrap().clone();
    assert!(!is_physical_folder(&a));
    assert!(is_physical_folder(&b));
    assert!(is_physical_folder(t.nodes.get(&1).unwrap()));
    assert!(matches!(trash_request(&a), CloudDeletion::File(ref id) if id == "lz_a"));
    assert!(matches!(trash_request(&b), CloudDeletion::Folder(ref id) if id == "lz_b"));
    set_trashed(&mut t, 3, true, 60);
    let a2 = t.nodes.get(&3).unwrap().clone();
    assert!(a2.is_trashed && a2.time == 60);
    assert!(matches!(trash_request(&a2), CloudDeletion::Skip));
    assert!(erased_on_cloud(&a2));
    set_trashed(&mut t, 3, false, 61);
    assert!(!t.nodes.get(&3).unwrap().is_trashed);
    assert_eq!(parent_cloud_folder(&t, 2), "f_sub");
    assert_eq!(parent_cloud_folder(&t, 0), "root_lz");
}

#[test]
fn renames() {
    let mut t = sample_tree();
    assert_eq!(rename_node(&mut t, 3, "c.txt".to_string(), 70), Ok(()));
    let n = t.nodes.get(&3).unwrap();
    assert_eq!((n.name.as_str(), n.time), ("c.txt", 70));
    assert_eq!(
        rename_node(&mut t, 42, "x".to_string(), 71),
        Err("Item not found in local VFS".to_string())
    );
}

#[test]
fn folder_trees_list_every_file_below() {
    let t = sample_tree();
    let mut files: Vec<(u64, String)> = folder_tree(&t, 1).into_iter().map(|f| (f.id, f.rel_path)).collect();
    files.sort();
    assert_eq!(files, vec![(3, "Docs/a.txt".to_string()), (4, "Docs/Sub/b.bin".to_string())]);
    assert!(folder_tree(&t, 99).is_empty());
    let mut out = Vec::new();
    heriheri::nav::flatten_tree(&t, 2, String::new(), &mut out);
    let paths: Vec<String> = out.into_iter().map(|f| f.rel_path).collect();
    assert_eq!(paths, vec!["b.bin".to_string()]);
}

#[test]
fn climbs_are_checked_before_walking() {
    let t = sample_tree();
    assert!(climb_leaves_table(&t, 5));
    assert!(climb_reaches_root(&t, 5));
    assert!(all_parents_leave(&t));
    let mut cyclic = sample_tree();
    cyclic.nodes.get_mut(&1).unwrap().pid = 5;
    assert!(!climb_leaves_table(&cyclic, 5));
    assert!(!climb_reaches_root(&cyclic, 5));
    assert!(!all_parents_leave(&cyclic));
    assert_eq!(drop_group_id(1700, 4), "g_1700_4");
}

#[test]
fn folders_rebuilt_deep_land_in_the_overflow() {
    let t = sample_tree();
    assert_eq!(rebuild_target(&t, 1, "new_docs"), "new_docs");
    assert_eq!(rebuild_target(&t, 2, "new_sub"), "deep_lz");
    assert_eq!(rebuild_target(&t, 0, "root"), "root");
}

#[test]
fn children_of_a_folder() {
    let t = sample_tree();
    let mut c = t.child_ids(2);
    c.sort();
    assert_eq!(c, vec![4, 5]);
}

#[test]
fn restoring_undoes_trashing() {
    let mut t = sample_tree();
    let before = t.nodes.get(&3).unwrap().clone();
    set_trashed(&mut t, 3, true, 500);
    assert!(t.select_children(1, true).iter().all(|n| n.id != 3));
    assert!(t.list_bin().iter().any(|n| n.id == 3));
    set_trashed(&mut t, 3, false, 600);
    assert!(t.select_children(1, true).iter().any(|n| n.id == 3));
    assert!(t.list_bin().iter().all(|n| n.id != 3));
    let after = t.nodes.get(&3).unwrap();
    assert_eq!(after.time, 600);
    assert_eq!((after.name.clone(), after.pid, after.is_trashed), (before.name, before.pid, before.is_trashed));
}

#[test]
fn a_folder_cannot_move_below_itself() {
    let mut t = sample_tree();
    // Docs(1) > Sub(2) > Deep(5)
    let before = t.to_tsv();
    assert_eq!(t.move_node(1, 5, 40), Err("Cannot move a folder into its own subfolder".to_string()));
    assert_eq!(t.move_node(1, 2, 40), Err("Cannot move a folder into its own subfolder".to_string()));
    assert_eq!(t.to_tsv(), before);
    assert_eq!(t.file_path, PathBuf::from("t.tsv"));
    assert_eq!(t.move_node(5, 1, 41), Ok(()));
    assert_eq!(t.nodes.get(&5).unwrap().pid, 1);
}

#[test]
fn the_tree_keeps_its_file_path() {
    let t = VfsTree::new("r".to_string(), "d".to_string(), PathBuf::from("/tmp/x.txt"));
    assert_eq!(t.file_path, PathBuf::from("/tmp/x.txt"));
    let other = VfsTree::new("r".to_string(), "d".to_string(), PathBuf::from("/tmp/y.txt"));
    assert_eq!(t.merge_with(&other, 5).file_path, PathBuf::from("/tmp/x.txt"));
    let back = VfsTree::from_tsv(&sample_tree().to_tsv(), PathBuf::from("/tmp/z.txt")).unwrap();
    assert_eq!(back.file_path, PathBuf::from("/tmp/z.txt"));
    assert_eq!(back.next_id, 6);
}
