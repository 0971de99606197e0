use heriheri::dav::{
    append_propfind_node, dav_path_segments, decode_url, default_webdav_config,
    expected_basic_auth, get_resolved_children, is_authorized, propfind_reply, quick_xml_escape,
    resolve_dav_path, url_encode_segment, dav_action, DavAction, DavTarget,
};
use heriheri::pages::{
    challenge_cookie, download_page_url, entry_share_url, file_page_kind, final_step_result,
    first_step_result, listing_request, listing_step, read_direct_page, read_download_page,
    read_folder_page, read_frame, read_framed_page, waf_is_cuttable, AjaxAnswer, FilePageKind,
    join_url, url_domain_text, url_origin,
};
use heriheri::proxy::{
    chunk_share_urls, expected_chunk_count, is_single, packet_take, plan_reply, upstream_range,
    upstream_reply_taken, StreamReply,
};
use heriheri::vfs::VfsTree;
use heriheri::waf::{acw_sc_v2_simple, hexdec, solve_ali_waf};
use std::path::PathBuf;

fn fields(form: &[heriheri::pages::FormField]) -> Vec<(String, String)> {
    form.iter().map(|f| (f.name.clone(), f.value.clone())).collect()
}

fn pairs(v: &[(&str, &str)]) -> Vec<(String, String)> {
    v.iter().map(|(a, b)| (a.to_string(), b.to_string())).collect()
}

#[test]
fn urls_decode_percent_and_plus() {
    assert_eq!(decode_url("a%20b+c"), "a b c");
    assert_eq!(decode_url("%E4%B8%AD"), "中");
    // A broken escape is dropped; bytes that are not UTF-8 leave the input.
    assert_eq!(decode_url("x%zzy"), "xy");
    assert_eq!(decode_url("%ff"), "%ff");
}

#[test]
fn xml_text_is_escaped() {
    assert_eq!(quick_xml_escape("a<b>&\"c'"), "a&lt;b&gt;&amp;&quot;c&apos;");
}

#[test]
fn path_segments_are_encoded() {
    assert_eq!(url_encode_segment("a b/中-_.~"), "a%20b%2F%E4%B8%AD-_.~");
}

#[test]
fn basic_auth() {
    assert_eq!(expected_basic_auth("admin", "admin"), "Basic YWRtaW46YWRtaW4=");
    assert!(is_authorized("Basic YWRtaW46YWRtaW4=", "admin", "admin"));
    assert!(!is_authorized("", "admin", "admin"));
    let c = default_webdav_config();
    assert_eq!((c.port, c.username.as_str(), c.password.as_str()), (8888, "admin", "admin"));
}

fn dav_tree() -> VfsTree {
    let mut t = VfsTree::new("r".to_string(), "d".to_string(), PathBuf::from("x"));
    let f = t.create_folder(0, "Movies", "lf", 1);
    t.add_file(f, "a.mkv", "l1", "1", "m1", "mkv", 1, 2);
    t.add_file(f, "a.mkv", "l2", "1", "m2", "mkv", 1, 3);
    t.add_file(f, "notes", "l3", "1", "m3", "", 1, 4);
    t.add_file(f, "notes", "l4", "1", "m4", "", 1, 5);
    t
}

#[test]
fn repeated_names_are_numbered() {
    let t = dav_tree();
    let shown: Vec<(u64, String)> =
        get_resolved_children(&t, 1).into_iter().map(|(n, s)| (n.id, s)).collect();
    assert_eq!(
        shown,
        vec![
            (2, "a.mkv".to_string()),
            (3, "a (1).mkv".to_string()),
            (4, "notes".to_string()),
            (5, "notes (1)".to_string())
        ]
    );
}

#[test]
fn dav_paths_resolve() {
    let t = dav_tree();
    assert_eq!(dav_path_segments("/dav/Movies/a%20(1).mkv"), vec!["Movies", "a (1).mkv"]);
    let target = resolve_dav_path(&t, "/dav/Movies/a%20(1).mkv").unwrap();
    assert_eq!((target.id, target.is_dir), (3, false));
    let root = resolve_dav_path(&t, "/dav/").unwrap();
    assert_eq!((root.id, root.is_dir), (0, true));
    assert!(resolve_dav_path(&t, "/dav/Nope").is_none());
}

#[test]
fn propfind_entries() {
    let mut xml = String::new();
    append_propfind_node(&mut xml, true, "A&B", &vec!["Movies".to_string()], 0);
    assert!(xml.contains("<D:href>/dav/Movies/</D:href>"));
    assert!(xml.contains("<D:displayname>A&amp;B</D:displayname>"));
    assert!(xml.contains("<D:resourcetype><D:collection/></D:resourcetype>"));
    let mut file = String::new();
    append_propfind_node(&mut file, false, "a b", &vec!["x y".to_string()], 42);
    assert!(file.contains("<D:href>/dav/x%20y</D:href>"));
    assert!(file.contains("<D:getcontentlength>42</D:getcontentlength>"));
}

#[test]
fn propfind_depth_one_lists_children() {
    let t = dav_tree();
    let target = resolve_dav_path(&t, "/dav/Movies").unwrap();
    let children = get_resolved_children(&t, 1);
    let sizes = vec![1u64; children.len()];
    let reply = propfind_reply(&target, 0, &children, &sizes, "1");
    assert!(reply.starts_with("<?xml version=\"1.0\" encoding=\"utf-8\" ?>\n<D:multistatus xmlns:D=\"DAV:\">\n"));
    assert_eq!(reply.matches("<D:response>").count(), 5);
    assert!(reply.contains("<D:href>/dav/Movies/a%20%281%29.mkv</D:href>"));
    let shallow = propfind_reply(&target, 0, &children, &sizes, "0");
    assert_eq!(shallow.matches("<D:response>").count(), 1);
}

#[test]
fn waf_answers() {
    assert_eq!(hexdec("ff"), 255);
    assert_eq!(hexdec("zz"), 0);
    let arg1 = "0123456789ABCDEF0123456789ABCDEF01234567";
    assert!(waf_is_cuttable(arg1));
    assert_eq!(solve_ali_waf(arg1), "d2c7186598ab1a508a4f6064e4fa746323ab17c6");
    assert_eq!(acw_sc_v2_simple(arg1), solve_ali_waf(arg1));
    // Pairs that are not hex read as 0: the key shows through.
    assert_eq!(solve_ali_waf("AB"), "3000176000856006061501533003690027800375");
}

#[test]
fn challenge_pages() {
    let html = "<script>var arg1='0123456789ABCDEF0123456789ABCDEF01234567';</script>";
    assert_eq!(
        challenge_cookie(html, "lanzoux.com"),
        Some("acw_sc__v2=d2c7186598ab1a508a4f6064e4fa746323ab17c6; Domain=lanzoux.com; Path=/".to_string())
    );
    assert_eq!(challenge_cookie("<html></html>", "x"), None);
}

#[test]
fn file_page_kinds() {
    let direct = "<script>url : '/ajaxm.php?file=123', data : { 'action' : 'downprocess' }</script>";
    assert_eq!(file_page_kind(direct), FilePageKind::Direct);
    assert_eq!(file_page_kind("<iframe src=\"/fn?abc\"></iframe>"), FilePageKind::Framed);
    assert_eq!(file_page_kind("<html></html>"), FilePageKind::Unknown);
}

#[test]
fn direct_pages_lead_to_a_signed_request() {
    let html = "/* url:'/ajaxm.php?file=9' */ url : '/ajaxm.php?file=123', data : { 'action':'downprocess','sign':'S1', }";
    let q = read_direct_page(html, Some("pw")).unwrap();
    assert_eq!(q.path, "/ajaxm.php?file=123");
    assert_eq!(
        fields(&q.form),
        pairs(&[("action", "downprocess"), ("sign", "S1"), ("kd", "1"), ("p", "pw")])
    );
    assert_eq!(read_direct_page("nothing", None).err(), Some("Type A: missing file ID".to_string()));
    assert_eq!(
        read_direct_page("url:'/ajaxm.php?file=5'", None).err(),
        Some("Type A: missing sign".to_string())
    );
}

#[test]
fn framed_pages_lead_to_their_frame() {
    assert_eq!(read_framed_page("<iframe src=\"/fn?XYZ\" >"), Ok("/fn?XYZ".to_string()));
    assert_eq!(read_framed_page("<p>"), Err("Type B: cannot find /fn? URL".to_string()));
    let frame = "var ajaxdata = 'AD'; var wp_sign = 'WS'; url : '/ajaxm.php?file=77', var killdns = 1;";
    let q = read_frame(frame).unwrap();
    assert_eq!(q.path, "/ajaxm.php?file=77");
    assert_eq!(
        fields(&q.form),
        pairs(&[
            ("action", "downprocess"),
            ("websignkey", "AD"),
            ("signs", "AD"),
            ("sign", "WS"),
            ("websign", "2"),
            ("kd", "1"),
            ("ves", "1")
        ])
    );
    assert_eq!(read_frame("var wp_sign = 'x';").err(), Some("Type B: missing ajaxdata".to_string()));
}

#[test]
fn ajax_answers() {
    let ok = AjaxAnswer {
        zt: Some(1),
        dom: Some("https://d.example//".to_string()),
        url: Some("?abc".to_string()),
        raw: "{}".to_string(),
    };
    assert_eq!(
        first_step_result(&ok, "fail: "),
        Ok(("https://d.example//".to_string(), "?abc".to_string()))
    );
    assert_eq!(download_page_url("https://d.example//", "?abc"), "https://d.example/file/?abc");
    assert_eq!(final_step_result(&ok), Ok("?abc".to_string()));
    let bad = AjaxAnswer { zt: Some(0), dom: None, url: None, raw: "{\"zt\":0}".to_string() };
    assert_eq!(first_step_result(&bad, "fail: "), Err("fail: {\"zt\":0}".to_string()));
    assert_eq!(
        final_step_result(&bad),
        Err("Final verification failed: {\"zt\":0}".to_string())
    );
}

#[test]
fn download_pages_take_the_last_verification_block() {
    let html = "// 'file':'OLD','el':x,'sign':'OLDS'\n'file':'A','el':el1,'sign':'B'\n/* 'file':'C','el':e,'sign':'D' */";
    assert_eq!(
        fields(&read_download_page(html).unwrap()),
        pairs(&[("file", "A"), ("el", "2"), ("sign", "B")])
    );
    assert_eq!(
        read_download_page("none").err(),
        Some("Could not find verification parameters on download page.".to_string())
    );
}

#[test]
fn folder_pages_and_listings() {
    let html = "var tk = 'TV'; var kk = 'KV'; 'fid':42,'uid':'7','puid':'p9', function file() { data: { 't':tk, 'k':kk } } function more() {}";
    let keys = read_folder_page(html).unwrap();
    assert_eq!(
        (keys.fid.as_str(), keys.uid.as_str(), keys.puid.as_str(), keys.t.as_str(), keys.k.as_str()),
        ("42", "7", "p9", "TV", "KV")
    );
    assert_eq!(read_folder_page("nothing").err(), Some("Missing fid".to_string()));
    let q = listing_request(&keys, 2, Some("pw"));
    let f = fields(&q.form);
    assert!(f.contains(&("pg".to_string(), "2".to_string())));
    assert!(f.contains(&("t".to_string(), "TV".to_string())));
    assert_eq!(listing_step(Some(1), Some(50)), (true, true));
    assert_eq!(listing_step(Some(1), Some(3)), (true, false));
    assert_eq!(listing_step(Some(0), Some(50)), (false, false));
    assert_eq!(listing_step(Some(1), None), (false, false));
    assert_eq!(entry_share_url("https://h", "i1"), "https://h/i1");
}

#[test]
fn chunk_metadata() {
    assert!(is_single("1"));
    assert!(is_single(""));
    assert!(!is_single("3"));
    assert_eq!(expected_chunk_count("3", 9), Ok(3));
    assert_eq!(
        expected_chunk_count("1", 9),
        Err("Invalid chunk count '1' for VFS node 9".to_string())
    );
    assert_eq!(
        expected_chunk_count("x", 9),
        Err("Invalid chunk count 'x' for VFS node 9".to_string())
    );
    assert_eq!(
        chunk_share_urls("https://h", &vec![Some("a".to_string()), Some("b".to_string())]),
        Ok(vec!["https://h/a".to_string(), "https://h/b".to_string()])
    );
    assert_eq!(
        chunk_share_urls("https://h", &vec![Some("a".to_string()), Some(String::new())]),
        Err("Chunk ID missing".to_string())
    );
}

#[test]
fn replies_are_planned_before_fetching() {
    assert!(matches!(plan_reply(None, 0), StreamReply::NoContent));
    match plan_reply(Some("bytes=10-19"), 100) {
        StreamReply::Serve { start, end, partial, content_range, content_length } => {
            assert_eq!((start, end, partial, content_length), (10, 19, true, 10));
            assert_eq!(content_range, Some("bytes 10-19/100".to_string()));
        }
        _ => panic!("expected a partial reply"),
    }
    match plan_reply(None, 100) {
        StreamReply::Serve { start, end, partial, content_range, content_length } => {
            assert_eq!((start, end, partial, content_length, content_range), (0, 99, false, 100, None));
        }
        _ => panic!("expected a full reply"),
    }
    match plan_reply(Some("bytes=200-"), 100) {
        StreamReply::Unsatisfiable { content_range } => assert_eq!(content_range, "bytes */100"),
        _ => panic!("expected 416"),
    }
}

#[test]
fn upstream_replies() {
    assert_eq!(upstream_range(5, 9), "bytes=5-9");
    assert!(upstream_reply_taken(200, 0, "video/mp4", "video/mp4"));
    assert!(!upstream_reply_taken(200, 10, "video/mp4", "video/mp4"));
    assert!(upstream_reply_taken(206, 10, "video/mp4", "video/mp4"));
    assert!(!upstream_reply_taken(206, 10, "text/html", "video/mp4"));
    assert!(!upstream_reply_taken(404, 0, "video/mp4", "video/mp4"));
    assert_eq!(packet_take(10, 4), 4);
    assert_eq!(packet_take(3, 4), 3);
}

#[test]
fn hrefs_decode_back_to_names() {
    for name in ["a b (1).mkv", "中文 名字", "100%+x", "~-_."] {
        assert_eq!(decode_url(&url_encode_segment(name)), name);
    }
}

fn dav_target(id: u64, is_dir: bool) -> Option<DavTarget> {
    Some(DavTarget { id, is_dir, node: None, name: "x".to_string(), segments: Vec::new() })
}

#[test]
fn dav_requests_are_decided_in_order() {
    assert_eq!(dav_action(false, &None, "GET"), DavAction::Unauthorized);
    assert_eq!(dav_action(true, &None, "PROPFIND"), DavAction::NotFound);
    assert_eq!(dav_action(true, &dav_target(0, true), "OPTIONS"), DavAction::Options);
    assert_eq!(dav_action(true, &dav_target(0, true), "PROPFIND"), DavAction::Propfind);
    assert_eq!(dav_action(true, &dav_target(0, true), "GET"), DavAction::Forbidden);
    assert_eq!(dav_action(true, &dav_target(7, false), "HEAD"), DavAction::Head { id: 7 });
    assert_eq!(dav_action(true, &dav_target(7, false), "GET"), DavAction::Stream { id: 7 });
    assert_eq!(dav_action(true, &dav_target(7, false), "DELETE"), DavAction::MethodNotAllowed);
}

#[test]
fn page_addresses() {
    assert_eq!(
        join_url("https://wwi.lanzoux.com/iAbc123", "/ajaxm.php?file=42"),
        Ok("https://wwi.lanzoux.com/ajaxm.php?file=42".to_string())
    );
    assert_eq!(
        join_url("https://dl.example.com/file/?x=1", "ajax.php"),
        Ok("https://dl.example.com/file/ajax.php".to_string())
    );
    assert_eq!(join_url("not a url", "x"), Err("Invalid URL".to_string()));
    assert_eq!(url_origin("https://wwi.lanzoux.com/b0abc?pwd=1"), "https://wwi.lanzoux.com");
    assert_eq!(url_origin("nonsense"), "");
    assert_eq!(url_domain_text("https://wwi.lanzoux.com/iAbc"), "wwi.lanzoux.com");
    assert_eq!(url_domain_text("http://127.0.0.1:8888/dav"), "");
}
