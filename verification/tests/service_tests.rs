use heriheri::agent::{
    agent_entry, agent_listing, check_sandbox_access, find_sandbox, folder_created_message,
    is_in_sandbox, route_mcp, sandbox_target, tool_failure, McpRoute, McpTool, SandboxAccess,
    METHOD_NOT_FOUND, SERVER_ERROR,
};
use heriheri::cloud::{
    answered_id, create_folder_form, delete_file_form, delete_folder_form, file_list_form,
    file_page_continues, folder_list_form, formhash_from_html, is_logged_in_page, login_clearance,
    login_cookies, login_form, login_result, move_item_form, recycle_form, recycle_succeeded,
    recycle_url, register_result, root_folder_ids, share_info_form, sms_result, vei_from_html,
    waf_clearance, LanzouCloud,
};
use heriheri::nav::SharePayload;
use heriheri::pages::FormField;
use heriheri::player::{
    bus_reaction, check_audio_track, check_subtitle_track, check_subtitle_uri, play_restarts,
    playback_status, reported_buffering, check_open_request, media_track, open_response, state_name, validate_uri, AiOperation,
    BusMessage, FrameProcessorRequest, OpenRequest, PipelineCommand, PipelineState, PlayerSession,
};
use heriheri::share::{rent_shared, ShareInfo};
use heriheri::sync::{
    find_sync_folder, newest_tree_file, push_failure, should_pull, stale_tree_files,
    local_tree_file_name, tree_file_name, tree_file_pattern, tree_file_prefix, SyncFile,
    SyncFolderEntry,
};
use heriheri::dav::{apply_config_update, default_webdav_config, WebdavConfig};
use heriheri::transfer::{
    chunk_link_url, chunk_upload_failure, chunk_upload_name, download_stop, file_md5_hex,
    move_kind, next_upload_piece, part_number, resume_position, resume_range_header,
    single_upload_failure, single_upload_name, sort_links_by_part, source_from_alien,
    source_from_payload, source_from_share_info, upload_answer_result, upload_chunk_bounds,
    upload_chunk_count, upload_form_fields, upload_mime, upload_parent_id, FolderLink, MoveKind, UploadPiece,
    UPLOAD_CHUNK_LIMIT, min_expected_bytes, UploadWatchdog, WatchdogVerdict,
};
use heriheri::vfs::{NodeType, VfsNode, VfsTree};
use std::path::PathBuf;

fn fields(form: &[FormField]) -> Vec<(String, String)> {
    form.iter().map(|f| (f.name.clone(), f.value.clone())).collect()
}

fn pairs(v: &[(&str, &str)]) -> Vec<(String, String)> {
    v.iter().map(|(a, b)| (a.to_string(), b.to_string())).collect()
}

fn file_node(lanzou_id: &str, chunks: &str) -> VfsNode {
    VfsNode {
        node_type: NodeType::File,
        id: 1,
        pid: 0,
        name: "f".to_string(),
        lanzou_id: lanzou_id.to_string(),
        time: 0,
        size: "1".to_string(),
        md5: "m".to_string(),
        ext: String::new(),
        chunks: chunks.to_string(),
        is_trashed: false,
        is_deleted: false,
    }
}

#[test]
fn the_session_walks_folders() {
    let mut c = LanzouCloud::new();
    assert_eq!(c.current_folder(), "-1");
    assert_eq!(c.create_parent_id(), "0");
    c.enter_folder_by_id("fol123".to_string());
    assert_eq!(c.current_folder(), "123");
    assert_eq!(c.create_parent_id(), "123");
    c.enter_folder_by_id("77".to_string());
    assert_eq!(c.folder_stack, vec!["-1", "123", "77"]);
    c.go_back();
    c.go_back();
    c.go_back();
    assert_eq!(c.folder_stack, vec!["-1"]);
}

#[test]
fn cookies_and_urls() {
    let mut c = LanzouCloud::new();
    assert_eq!(c.doupload_url(), "https://up.woozooo.com/doupload.php");
    let header = c.set_cookies("u1".to_string(), "info".to_string());
    assert_eq!(header, "ylogin=u1; phpdisk_info=info");
    assert_eq!(c.doupload_url(), "https://up.woozooo.com/doupload.php?uid=u1");
    assert_eq!(
        c.vei_page_url(),
        "https://up.woozooo.com/mydisk.php?item=files&action=index&u=u1"
    );
    assert_eq!(recycle_url(), "https://up.woozooo.com/mydisk.php?item=recycle");
}

#[test]
fn folder_request_forms() {
    assert_eq!(fields(&folder_list_form("5", "V")), pairs(&[("task", "47"), ("folder_id", "5"), ("vei", "V")]));
    assert_eq!(
        fields(&file_list_form("5", 3, "V")),
        pairs(&[("task", "5"), ("folder_id", "5"), ("pg", "3"), ("vei", "V")])
    );
    assert_eq!(
        fields(&create_folder_form("0", "n", "d")),
        pairs(&[("task", "2"), ("parent_id", "0"), ("folder_name", "n"), ("folder_description", "d")])
    );
    assert_eq!(fields(&delete_file_form("9")), pairs(&[("task", "6"), ("file_id", "9")]));
    assert_eq!(fields(&delete_folder_form("fol9")), pairs(&[("task", "3"), ("folder_id", "9")]));
    assert_eq!(fields(&share_info_form("9", true)), pairs(&[("task", "18"), ("folder_id", "9")]));
    assert_eq!(fields(&share_info_form("9", false)), pairs(&[("task", "22"), ("file_id", "9")]));
    assert_eq!(
        fields(&move_item_form("f1", "d1")),
        pairs(&[("task", "20"), ("folder_id", "d1"), ("file_id", "f1")])
    );
    assert_eq!(
        fields(&recycle_form("9", false, "H", true)),
        pairs(&[
            ("action", "file_restore"),
            ("task", "file_restore"),
            ("file_id", "9"),
            ("ref", "https://up.woozooo.com/mydisk.php?item=recycle&action=files"),
            ("formhash", "H")
        ])
    );
    assert_eq!(fields(&recycle_form("9", true, "H", false))[0].1, "folder_delete_complete");
}

#[test]
fn listing_pages_continue_while_full() {
    assert!(file_page_continues(Some(1), Some(1), Some(3)));
    assert!(file_page_continues(Some(1), None, Some(3)));
    assert!(!file_page_continues(Some(1), Some(0), Some(3)));
    assert!(!file_page_continues(Some(1), Some(1), Some(0)));
    assert!(!file_page_continues(Some(0), Some(1), Some(3)));
    assert!(!file_page_continues(Some(1), Some(1), None));
}

#[test]
fn pages_of_the_drive() {
    assert!(recycle_succeeded("<p>恢复成功</p>", true));
    assert!(!recycle_succeeded("<p>恢复成功</p>", false));
    assert!(recycle_succeeded("删除成功", false));
    assert!(is_logged_in_page("<a>退出</a>"));
    assert!(!is_logged_in_page("<a>登录</a>"));
    assert_eq!(vei_from_html("var x = {'vei':'ABC'};"), Ok("ABC".to_string()));
    assert_eq!(vei_from_html("v = 'Q1'; data = {\"vei\": v};"), Ok("Q1".to_string()));
    assert_eq!(vei_from_html("none"), Err("Could not extract vei token".to_string()));
    assert_eq!(
        formhash_from_html("<input name=\"formhash\" value=\"a1B2\">"),
        Ok("a1B2".to_string())
    );
    assert_eq!(
        formhash_from_html("<input>"),
        Err("Could not find formhash in recycle bin HTML".to_string())
    );
    assert_eq!(answered_id(Some("x".to_string()), Some(5)), "x");
    assert_eq!(answered_id(None, Some(5)), "5");
    assert_eq!(answered_id(None, None), "");
}

#[test]
fn the_trees_cloud_folders_are_found() {
    let folders = vec![
        (".heriheri".to_string(), "1".to_string()),
        ("other".to_string(), "2".to_string()),
        (".deeperdir".to_string(), "3".to_string()),
        (".heriheri".to_string(), "4".to_string()),
    ];
    assert_eq!(root_folder_ids(&folders), ("1".to_string(), "3".to_string()));
    let partial = vec![(".heriheri".to_string(), "1".to_string()), (".heriheri".to_string(), "9".to_string())];
    assert_eq!(root_folder_ids(&partial), ("9".to_string(), String::new()));
}

#[test]
fn logging_in() {
    let arg1 = "0123456789ABCDEF0123456789ABCDEF01234567";
    let page = format!("<script>var arg1='{arg1}';</script>");
    assert_eq!(
        waf_clearance(&page),
        Some("acw_sc__v2=d2c7186598ab1a508a4f6064e4fa746323ab17c6".to_string())
    );
    assert_eq!(waf_clearance("<html>"), None);
    assert_eq!(login_clearance("<html>"), Ok(None));
    assert_eq!(
        login_clearance("arg1=broken"),
        Err("WAF challenge detected, but could not extract arg1.".to_string())
    );
    assert_eq!(
        fields(&login_form("p", "s")),
        pairs(&[("task", "uselogin"), ("username", "p"), ("password", "s"), ("ref", "up.woozooo.com")])
    );
    let headers = vec![
        "ylogin=42; path=/".to_string(),
        "other=1".to_string(),
        "phpdisk_info=ZZ%3D; expires=x".to_string(),
    ];
    assert_eq!(login_cookies(&headers), ("42".to_string(), "ZZ%3D".to_string()));
    assert_eq!(
        login_result("42".to_string(), "ZZ".to_string(), "body"),
        Ok(("42".to_string(), "ZZ".to_string()))
    );
    assert_eq!(
        login_result("42".to_string(), String::new(), "bad"),
        Err("Login failed. Server response: bad".to_string())
    );
}

#[test]
fn registering() {
    assert_eq!(sms_result(Some(1), None), Ok("SMS sent".to_string()));
    assert_eq!(sms_result(Some(1), Some("ok".to_string())), Ok("ok".to_string()));
    assert_eq!(sms_result(Some(0), None), Err("Failed to send SMS".to_string()));
    assert_eq!(register_result(Some(0), None), Err("Invalid verification code".to_string()));
    assert_eq!(register_result(Some(1), Some(1)), Ok(true));
    assert_eq!(register_result(Some(1), Some(0)), Err("Failed to set password".to_string()));
}

#[test]
fn tree_copies_on_the_cloud() {
    assert_eq!(tree_file_pattern(""), "heriheri_tree_(\\d+)\\.txt");
    assert_eq!(tree_file_pattern("138"), "heriheri_tree_138_(\\d+)\\.txt");
    assert_eq!(tree_file_prefix(""), "heriheri_tree_");
    assert_eq!(tree_file_prefix("138"), "heriheri_tree_138_");
    assert_eq!(tree_file_name("heriheri_tree_138_", 99), "heriheri_tree_138_99.txt");
    let files = vec![
        SyncFile { name: Some("heriheri_tree_138_5.txt".to_string()), id: Some("a".to_string()) },
        SyncFile { name: Some("heriheri_tree_138_9.txt".to_string()), id: Some("b".to_string()) },
        SyncFile { name: Some("heriheri_tree_138_9.txt".to_string()), id: Some("c".to_string()) },
        SyncFile { name: Some("unrelated.txt".to_string()), id: Some("d".to_string()) },
        SyncFile { name: None, id: Some("e".to_string()) },
    ];
    let pattern = tree_file_pattern("138");
    assert_eq!(newest_tree_file(&files, &pattern), (9, "b".to_string()));
    assert!(should_pull(9, "b", 8));
    assert!(!should_pull(9, "b", 9));
    assert!(!should_pull(9, "", 1));
    assert_eq!(
        stale_tree_files(&files, "heriheri_tree_138_", "b"),
        vec!["a".to_string(), "c".to_string()]
    );
    assert_eq!(push_failure("x"), "Sync Push Failed: x");
}

#[test]
fn the_sync_folder_is_found() {
    let entry = |name: &str, text: Option<&str>, number: Option<u64>| SyncFolderEntry {
        name: Some(name.to_string()),
        id_text: text.map(|t| t.to_string()),
        id_number: number,
    };
    let folders = vec![entry("x", Some("1"), None), entry(".vfs", Some(""), None), entry(".vfs", None, Some(12))];
    assert_eq!(find_sync_folder(&folders), Some("12".to_string()));
    let none = vec![entry("x", Some("1"), None), entry(".vfs", Some(""), None)];
    assert_eq!(find_sync_folder(&none), None);
}

#[test]
fn upload_planning() {
    assert_eq!(upload_chunk_count(0), 1);
    assert_eq!(upload_chunk_count(UPLOAD_CHUNK_LIMIT), 1);
    assert_eq!(upload_chunk_count(UPLOAD_CHUNK_LIMIT + 1), 2);
    assert_eq!(upload_chunk_count(3 * UPLOAD_CHUNK_LIMIT), 3);
    assert_eq!(upload_chunk_bounds(1, UPLOAD_CHUNK_LIMIT + 5), (UPLOAD_CHUNK_LIMIT, UPLOAD_CHUNK_LIMIT + 5));
    assert_eq!(upload_chunk_bounds(0, UPLOAD_CHUNK_LIMIT + 5), (0, UPLOAD_CHUNK_LIMIT));
    assert_eq!(single_upload_name("abc", "zip"), "abc.zip");
    assert_eq!(chunk_upload_name("abc", 0), "abc_part1.iso");
    assert_eq!(chunk_upload_name("abc", 11), "abc_part12.iso");
}

#[test]
fn upload_failures() {
    assert_eq!(single_upload_failure("x CANCELLED y"), "CANCELLED");
    assert_eq!(single_upload_failure("network"), "network");
    assert_eq!(chunk_upload_failure("PAUSED", "fold", 3), ("PAUSED:fold|3".to_string(), false));
    assert_eq!(chunk_upload_failure("CANCELLED", "fold", 3), ("CANCELLED".to_string(), true));
    assert_eq!(chunk_upload_failure("boom", "fold", 3), ("boom".to_string(), false));
}

#[test]
fn streaming_an_upload_body() {
    assert_eq!(upload_parent_id("-1"), "0");
    assert_eq!(upload_parent_id("55"), "55");
    assert_eq!(
        fields(&upload_form_fields("0", "a.zip")),
        pairs(&[
            ("task", "1"),
            ("vie", "2"),
            ("ve", "2"),
            ("id", "WU_FILE_0"),
            ("folder_id_bb_n", "0"),
            ("name", "a.zip")
        ])
    );
    assert!(matches!(next_upload_piece(10, 10, 0), UploadPiece::Done));
    assert!(matches!(next_upload_piece(0, 10, 1), UploadPiece::Paused));
    assert!(matches!(next_upload_piece(0, 10, 2), UploadPiece::Cancelled));
    assert!(matches!(next_upload_piece(0, 10, 0), UploadPiece::Send { start: 0, end: 10 }));
    assert!(matches!(next_upload_piece(0, 1 << 20, 0), UploadPiece::Send { start: 0, end: 262144 }));
    assert_eq!(upload_answer_result(Some(1), Some("id9".to_string()), "{}"), Ok("id9".to_string()));
    assert_eq!(upload_answer_result(Some(1), None, "{}"), Ok(String::new()));
    assert_eq!(upload_answer_result(Some(0), None, "{\"zt\":0}"), Err("Upload failed: {\"zt\":0}".to_string()));
}

#[test]
fn checksums_are_lower_hex() {
    assert_eq!(file_md5_hex(b"abcdefghijklmnopqrstuvwxyz"), "c3fcd3d76192e4007dfb496cca67e13b");
    assert_eq!(file_md5_hex(b""), "d41d8cd98f00b204e9800998ecf8427e");
}

#[test]
fn download_sources() {
    let payload = SharePayload {
        n: "a".to_string(),
        m: "m".to_string(),
        s: "1".to_string(),
        c: 3,
        l: "https://h/x".to_string(),
        p: String::new(),
    };
    let s = source_from_payload(&payload);
    assert_eq!((s.chunks.as_str(), s.share_url.as_str(), s.password), ("3", "https://h/x", None));
    let alien = file_node("alien://zzz", "2");
    let s = source_from_alien(&alien, &SharePayload { p: "pw".to_string(), ..payload });
    assert_eq!((s.chunks.as_str(), s.password), ("2", Some("pw".to_string())));
    let own = file_node("77", "1");
    let info = ShareInfo { new_url: Some("https://n/u".to_string()), is_newd: None, f_id: None, pwd: Some(String::new()) };
    let s = source_from_share_info(&own, &info).unwrap();
    assert_eq!((s.share_url.as_str(), s.password), ("https://n/u", None));
    let empty = ShareInfo { new_url: None, is_newd: None, f_id: None, pwd: None };
    assert_eq!(source_from_share_info(&own, &empty).err(), Some("Could not get share URL".to_string()));
}

#[test]
fn resuming_downloads() {
    assert_eq!(resume_range_header(0), None);
    assert_eq!(resume_range_header(1024), Some("bytes=1024-".to_string()));
    assert_eq!(download_stop(0, 5), None);
    assert_eq!(download_stop(1, 5), Some("PAUSED:5".to_string()));
    assert_eq!(download_stop(2, 5), Some("CANCELLED".to_string()));
    assert_eq!(resume_position(UPLOAD_CHUNK_LIMIT * 2 + 7), (2, 7));
    assert_eq!(resume_position(0), (0, 0));
}

fn link(name: &str, url: Option<&str>) -> FolderLink {
    FolderLink {
        name: name.to_string(),
        size: String::new(),
        time: String::new(),
        direct_url: url.map(|u| u.to_string()),
        error: None,
    }
}

#[test]
fn chunk_links_are_put_in_part_order() {
    assert_eq!(part_number("m_part12.iso"), 12);
    assert_eq!(part_number("m_part12.iso.bak"), 12);
    assert_eq!(part_number("readme.txt"), 0);
    let sorted = sort_links_by_part(vec![
        link("m_part2.iso", None),
        link("first-unnumbered", None),
        link("m_part1.iso", None),
        link("second-unnumbered", None),
    ]);
    let names: Vec<&str> = sorted.iter().map(|l| l.name.as_str()).collect();
    assert_eq!(names, vec!["first-unnumbered", "second-unnumbered", "m_part1.iso", "m_part2.iso"]);
}

#[test]
fn chunk_links_must_resolve() {
    assert_eq!(chunk_link_url(&link("a", Some("https://cdn/a"))), Ok("https://cdn/a".to_string()));
    assert_eq!(
        chunk_link_url(&link("a", None)),
        Err("Failed to resolve direct URL for chunk: Unknown".to_string())
    );
    let mut failed = link("a", Some("null"));
    failed.error = Some("timeout".to_string());
    assert_eq!(
        chunk_link_url(&failed),
        Err("Failed to resolve direct URL for chunk: timeout".to_string())
    );
}

#[test]
fn how_items_move() {
    assert!(matches!(move_kind(&file_node("alien://x", "1")), MoveKind::Alien));
    assert!(matches!(move_kind(&file_node("1", "4")), MoveKind::Chunked));
    assert!(matches!(move_kind(&file_node("1", "1")), MoveKind::Single));
    let mut dir = file_node("1", "");
    dir.node_type = NodeType::Directory;
    assert!(matches!(move_kind(&dir), MoveKind::Folder));
}

fn agent_tree() -> VfsTree {
    let mut t = VfsTree::new("r".to_string(), "d".to_string(), PathBuf::from("x"));
    let ws = t.create_folder(0, "AgentWorkspace", "w", 1);
    let inner = t.create_folder(ws, "inner", "i", 2);
    t.add_file(inner, "aGVsbG8=", "l", "5", "m", "txt", 1, 3);
    t.create_folder(0, "private", "p", 4);
    t
}

#[test]
fn agents_are_held_in_their_workspace() {
    let t = agent_tree();
    assert_eq!(find_sandbox(&t), Some(1));
    assert_eq!(sandbox_target(0, 1), 1);
    assert_eq!(sandbox_target(2, 1), 2);
    assert!(is_in_sandbox(&t, 3, 1));
    assert!(is_in_sandbox(&t, 1, 1));
    assert!(!is_in_sandbox(&t, 4, 1));
    assert!(check_sandbox_access(&t, 2, 1, SandboxAccess::Modify).is_ok());
    let e = check_sandbox_access(&t, 1, 1, SandboxAccess::Delete).unwrap_err();
    assert_eq!((e.code, e.message.as_str()), (SERVER_ERROR, "Sandbox Violation: Cannot delete root or external items"));
    let e = check_sandbox_access(&t, 4, 1, SandboxAccess::Use).unwrap_err();
    assert_eq!(e.message, "Sandbox Violation: Access Denied");
}

#[test]
fn agents_see_decoded_names() {
    let t = agent_tree();
    let listing = agent_listing(&t, 2);
    assert_eq!(listing.len(), 1);
    assert_eq!(listing[0].name, "hello");
    assert!(!listing[0].is_folder);
    let plain = agent_entry(t.nodes.get(&2).unwrap());
    assert_eq!((plain.name.as_str(), plain.is_folder), ("inner", true));
    assert_eq!(folder_created_message(5), "Folder created successfully. ID: 5");
    let e = tool_failure("Rename failed: ", "x");
    assert_eq!((e.code, e.message.as_str()), (SERVER_ERROR, "Rename failed: x"));
}

#[test]
fn agent_requests_are_routed() {
    assert_eq!(route_mcp("initialize", "").unwrap(), McpRoute::Initialize);
    assert_eq!(route_mcp("tools/call", "read_vfs").unwrap(), McpRoute::Tool(McpTool::ReadVfs));
    let e = route_mcp("tools/call", "hack").unwrap_err();
    assert_eq!((e.code, e.message.as_str()), (METHOD_NOT_FOUND, "Tool hack not found"));
    let e = route_mcp("nope", "").unwrap_err();
    assert_eq!(e.message, "Method nope not found");
}

fn open_request(uri: &str, label: Option<&str>, processor: FrameProcessorRequest) -> OpenRequest {
    OpenRequest {
        uri: uri.to_string(),
        title: "t".to_string(),
        is_audio: false,
        start_position_ms: None,
        renderer_window_label: label.map(|l| l.to_string()),
        controller_window_label: None,
        processor,
    }
}

#[test]
fn player_requests() {
    assert!(validate_uri("https://x/v.mp4").is_ok());
    assert!(validate_uri("file:///v.mp4").is_ok());
    assert_eq!(
        validate_uri("rtsp://x"),
        Err("Only HTTP(S) and file media sources are accepted".to_string())
    );
    assert_eq!(
        check_open_request(&open_request("http://x", Some("r"), FrameProcessorRequest::Passthrough)),
        Ok("r".to_string())
    );
    assert_eq!(
        check_open_request(&open_request("http://x", None, FrameProcessorRequest::Passthrough)),
        Err("Desktop playback requires a renderer window label".to_string())
    );
    let onnx = FrameProcessorRequest::Onnx { model_id: "m".to_string(), operation: AiOperation::SuperResolution };
    assert_eq!(
        check_open_request(&open_request("http://x", Some("r"), onnx)),
        Err("The ONNX frame-processor API is reserved but no AI processor is installed".to_string())
    );
    let r = open_response(7);
    assert_eq!((r.generation, r.renderer_mode), (7, "embedded-native-surface"));
    let t = media_track(1, 1, None, Some("en".to_string()), None, "Audio");
    assert_eq!((t.label.as_str(), t.selected), ("en", true));
    let t = media_track(2, 1, None, None, None, "Subtitle");
    assert_eq!((t.label.as_str(), t.selected), ("Subtitle 3", false));
}

#[test]
fn upload_media_types() {
    assert_eq!(upload_mime("abc.zip"), "application/zip");
    assert_eq!(upload_mime("noext"), "application/octet-stream");
}

#[test]
fn upload_chunks_cover_the_file() {
    let total = 2 * UPLOAD_CHUNK_LIMIT + 17;
    let n = upload_chunk_count(total);
    assert_eq!(n, 3);
    let mut expected_start = 0;
    for i in 0..n {
        let (s, e) = upload_chunk_bounds(i, total);
        assert_eq!(s, expected_start);
        assert!(e > s && e - s <= UPLOAD_CHUNK_LIMIT);
        expected_start = e;
    }
    assert_eq!(expected_start, total);
}

#[test]
fn local_tree_file_names() {
    assert_eq!(local_tree_file_name(""), "heriheri_tree.txt");
    assert_eq!(local_tree_file_name("13800000000"), "heriheri_tree_13800000000.txt");
}

#[test]
fn an_old_tree_adopts_the_overflow_folder() {
    let mut old = VfsTree::new("root".to_string(), String::new(), PathBuf::from("t.tsv"));
    let id = old.create_folder(0, "A", "fa", 5);
    assert!(old.adopt_overflow("deep_new".to_string()));
    assert_eq!(old.deeperdir_lanzou_id, "deep_new");
    assert_eq!(old.root_lanzou_id, "root");
    assert!(old.nodes.contains_key(&id));
    assert!(!old.adopt_overflow("other".to_string()));
    assert_eq!(old.deeperdir_lanzou_id, "deep_new");
}

#[test]
fn config_update_restarts_only_on_a_new_port() {
    let mut config = default_webdav_config();
    config.lanzou_phone = "139".to_string();
    let same_port = WebdavConfig {
        port: 8888,
        username: "u".to_string(),
        password: "p".to_string(),
        lanzou_phone: String::new(),
        lanzou_pass: String::new(),
    };
    assert!(!apply_config_update(&mut config, &same_port));
    assert_eq!(config.username, "u");
    assert_eq!(config.password, "p");
    assert_eq!(config.lanzou_phone, "139");
    let new_port = WebdavConfig { port: 9000, ..same_port };
    assert!(apply_config_update(&mut config, &new_port));
    assert_eq!(config.port, 9000);
}

#[test]
fn an_open_supersedes_the_playing_generation() {
    let mut s = PlayerSession::new();
    let first = s.begin_open("renderer".to_string(), None, "a.mkv".to_string());
    assert_eq!(first, 2);
    s.playback_started();
    assert!(s.desired_playing);
    assert_eq!(s.buffering_percent, -1);
    let second = s.begin_open("renderer".to_string(), Some("controls".to_string()), "b.mkv".to_string());
    assert_eq!(second, 4);
    assert!(!s.is_current(first));
    assert!(s.is_current(second));
    assert!(!s.desired_playing);
    // a late failure of the first open leaves the second alone
    s.abandon_open(first);
    assert_eq!(s.title.as_deref(), Some("b.mkv"));
    assert_eq!(s.controller_window_label.as_deref(), Some("controls"));
    s.abandon_open(second);
    assert_eq!(s.title, None);
    assert_eq!(s.renderer_window_label, None);
    s.stop();
    assert_eq!(s.generation, 5);
}

#[test]
fn a_failed_start_moves_the_generation_on() {
    let mut s = PlayerSession::new();
    let g = s.begin_open("r".to_string(), None, "t".to_string());
    s.playback_failed();
    assert!(!s.is_current(g));
    assert_eq!(s.title, None);
    assert!(!s.desired_playing);
}

#[test]
fn bus_messages_become_events_and_commands() {
    let looped = bus_reaction(&BusMessage::EndOfStream, 7, true, true);
    assert_eq!(looped.command, PipelineCommand::RestartFromStart { resume: true });
    assert_eq!(looped.event.as_ref().map(|e| e.kind), Some("looped"));
    assert!(looped.desired_playing);
    let ended = bus_reaction(&BusMessage::EndOfStream, 7, false, true);
    assert_eq!(ended.command, PipelineCommand::Nothing);
    assert!(!ended.desired_playing);
    assert_eq!(ended.event.as_ref().map(|e| e.kind), Some("ended"));
    let err = bus_reaction(
        &BusMessage::Error { error: "no decoder".to_string(), debug: Some("avdec".to_string()) },
        7,
        false,
        true,
    );
    assert!(err.stop_watching);
    assert!(!err.desired_playing);
    let e = err.event.unwrap();
    assert_eq!((e.generation, e.kind), (7, "error"));
    assert_eq!(e.message.as_deref(), Some("no decoder (avdec)"));
    let low = bus_reaction(&BusMessage::Buffering { percent: 40 }, 7, false, true);
    assert_eq!(low.command, PipelineCommand::Pause);
    assert_eq!(low.buffering_percent, Some(40));
    assert_eq!(low.event.unwrap().percent, Some(40));
    let full = bus_reaction(&BusMessage::Buffering { percent: 100 }, 7, false, true);
    assert_eq!(full.command, PipelineCommand::Play);
    let full_paused = bus_reaction(&BusMessage::Buffering { percent: 100 }, 7, false, false);
    assert_eq!(full_paused.command, PipelineCommand::Nothing);
    let state = bus_reaction(&BusMessage::PipelineStateChanged { current: PipelineState::Paused }, 7, false, true);
    assert_eq!(state.event.unwrap().message.as_deref(), Some("paused"));
    assert_eq!(state_name(PipelineState::VoidPending), "voidpending");
    assert!(bus_reaction(&BusMessage::Other, 7, false, true).event.is_none());
    let warn = bus_reaction(&BusMessage::Warning { error: "slow".to_string() }, 7, false, true);
    assert!(!warn.stop_watching);
    assert_eq!(warn.event.unwrap().kind, "warning");
}

#[test]
fn player_controls_and_status() {
    assert!(play_restarts(Some(9_800_000_000), Some(10_000_000_000)));
    assert!(!play_restarts(Some(9_700_000_000), Some(10_000_000_000)));
    assert!(play_restarts(Some(u64::MAX), Some(u64::MAX)));
    assert!(!play_restarts(None, Some(1)));
    assert_eq!(check_audio_track(0, 2), Ok(()));
    assert_eq!(check_audio_track(2, 2), Err("Audio track index is out of range".to_string()));
    assert_eq!(check_audio_track(-1, 2), Err("Audio track index is out of range".to_string()));
    assert_eq!(check_subtitle_track(-1, 0), Ok(()));
    assert_eq!(check_subtitle_track(-2, 3), Err("Subtitle track index is out of range".to_string()));
    assert_eq!(check_subtitle_uri(&None), Ok(()));
    assert!(check_subtitle_uri(&Some("ftp://x/y.srt".to_string())).is_err());
    assert_eq!(check_subtitle_uri(&Some("https://x/y.srt".to_string())), Ok(()));
    assert_eq!(playback_status(None, true, 0), "stopped");
    assert_eq!(playback_status(Some(PipelineState::Playing), false, 0), "paused");
    assert_eq!(playback_status(Some(PipelineState::Paused), true, 40), "buffering");
    assert_eq!(playback_status(Some(PipelineState::Paused), true, 100), "paused");
    assert_eq!(playback_status(Some(PipelineState::VoidPending), true, 0), "changing");
    assert_eq!(reported_buffering(-1), None);
    assert_eq!(reported_buffering(100), None);
    assert_eq!(reported_buffering(42), Some(42));
}

#[test]
fn the_watchdog_aborts_stalled_and_hung_uploads() {
    assert_eq!(min_expected_bytes(0), 750_000);
    assert_eq!(min_expected_bytes(100), 256_000);
    assert_eq!(min_expected_bytes(10_000), 750_000);
    let mut w = UploadWatchdog::new();
    assert_eq!(w.look(800_000, 10_000_000, 0), WatchdogVerdict::Healthy);
    assert_eq!(w.last_offset, 800_000);
    assert_eq!(w.look(1_000_000, 10_000_000, 0), WatchdogVerdict::Stalled);
    assert_eq!(w.last_offset, 800_000);
    let mut done = UploadWatchdog::new();
    for _ in 0..6 {
        assert_eq!(done.look(10, 10, 0), WatchdogVerdict::Healthy);
    }
    assert_eq!(done.look(10, 10, 0), WatchdogVerdict::ServerHung);
}

#[test]
fn a_resumed_download_continues_at_the_next_byte() {
    let total: u64 = 3 * 104_857_600 + 17;
    let offset: u64 = 2 * 104_857_600 + 9;
    let (chunk, within) = resume_position(offset);
    assert_eq!((chunk, within), (2, 9));
    let (start, end) = upload_chunk_bounds(chunk, total);
    assert_eq!(start + within, offset);
    assert!(start + within < end);
}

#[test]
fn a_rented_name_with_folders_keeps_its_last_extension() {
    let mut t = VfsTree::new("r".to_string(), "d".to_string(), PathBuf::from("x"));
    let payload = SharePayload {
        n: "clips/holiday.mp4".to_string(),
        m: "abc".to_string(),
        s: "10".to_string(),
        c: 2,
        l: "https://h/x".to_string(),
        p: String::new(),
    };
    rent_shared(&mut t, &payload, "XYZ", 0, 5);
    let n = t.nodes.get(&1).unwrap();
    assert_eq!(n.name, "clips/holiday.mp4");
    assert_eq!(n.ext, "mp4");
    assert_eq!(n.lanzou_id, "alien://XYZ");
    assert_eq!(n.chunks, "2");
    assert_eq!(t.next_id, 2);
    let plain = SharePayload { n: "a.b.txt".to_string(), m: "def".to_string(), ..payload };
    rent_shared(&mut t, &plain, "Q", 0, 6);
    assert_eq!(t.nodes.get(&2).unwrap().ext, "txt");
}
