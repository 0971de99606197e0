use heriheri::chunks::{chunk_file_name, chunk_index_from_name, order_cloud_chunks, CloudFile};
use heriheri::crypto::{
    decrypt_chunk_filename, decrypt_payload, encrypt_chunk_filename, encrypt_payload,
    key_from_secret,
};
use heriheri::nav::SharePayload;
use heriheri::share::{
    is_chunked, remove_all, resolve_result_of, share_code_json, share_code_of, share_payload_for,
    share_precheck, share_url, ShareInfo,
};
use heriheri::vfs::{NodeType, VfsNode};

const SECRET: &str = "correct horse battery staple";
const MD5: &str = "0123456789abcdef0123456789abcdef";

fn node(node_type: NodeType, lanzou_id: &str, chunks: &str) -> VfsNode {
    VfsNode {
        node_type,
        id: 7,
        pid: 0,
        name: "movie.mkv".to_string(),
        lanzou_id: lanzou_id.to_string(),
        time: 1,
        size: "123".to_string(),
        md5: MD5.to_string(),
        ext: "mkv".to_string(),
        chunks: chunks.to_string(),
        is_trashed: false,
        is_deleted: false,
    }
}

fn cloud_file(name: &str, size: u64) -> CloudFile {
    CloudFile { id: None, name_all: Some(name.to_string()), name: None, size_bytes: size }
}

#[test]
fn keys_are_padded_or_cut_to_32_bytes() {
    let k = key_from_secret("abc");
    assert_eq!(k.len(), 32);
    assert_eq!(&k[..3], b"abc");
    assert!(k[3..].iter().all(|&b| b == 0));
    let long = "x".repeat(40);
    assert_eq!(key_from_secret(&long), vec![b'x'; 32]);
}

#[test]
fn payloads_open_to_what_was_sealed() {
    let json = r#"{"n":"a.txt","c":1}"#;
    let sealed = encrypt_payload(SECRET, json);
    assert_eq!(decrypt_payload(SECRET, &sealed), Ok(json.to_string()));
    // A fresh nonce each time.
    assert_ne!(sealed, encrypt_payload(SECRET, json));
}

#[test]
fn payload_errors() {
    let sealed = encrypt_payload(SECRET, "{}");
    assert_eq!(
        decrypt_payload("another secret", &sealed),
        Err("Decryption or Authentication failed!".to_string())
    );
    assert_eq!(decrypt_payload(SECRET, "!!!"), Err("Invalid Base64".to_string()));
    assert_eq!(decrypt_payload(SECRET, "AAAA"), Err("Payload too short".to_string()));
    assert_eq!(decrypt_payload(SECRET, ""), Err("Payload too short".to_string()));
    assert_eq!(decrypt_payload(SECRET, "@@"), Err("Invalid Base64".to_string()));
}

#[test]
fn chunk_names_are_hex_and_read_back() {
    let name = encrypt_chunk_filename(SECRET, MD5, 7);
    assert!(name.chars().all(|c| c.is_ascii_hexdigit() && !c.is_ascii_uppercase()));
    assert_eq!(decrypt_chunk_filename(SECRET, &name), Some(7));
    assert_eq!(decrypt_chunk_filename(SECRET, &format!("{name}.zip")), Some(7));
    assert_eq!(decrypt_chunk_filename("another secret", &name), None);
    assert_eq!(decrypt_chunk_filename(SECRET, "not-hex"), None);
}

#[test]
fn chunk_numbers_from_each_naming_scheme() {
    let sealed = encrypt_chunk_filename(SECRET, MD5, 3);
    assert_eq!(chunk_index_from_name(SECRET, &sealed), Some(3));
    assert_eq!(chunk_index_from_name(SECRET, &format!("{MD5}000a.zip")), Some(10));
    assert_eq!(chunk_index_from_name(SECRET, "abc_part12.iso"), Some(12));
    assert_eq!(chunk_index_from_name(SECRET, "holiday.mkv"), None);
    assert_eq!(chunk_index_from_name(SECRET, "abc_part99999999999.iso"), None);
}

#[test]
fn chunk_file_names_fall_back() {
    assert_eq!(chunk_file_name(&cloud_file("full", 1)), "full");
    let short = CloudFile { id: None, name_all: None, name: Some("short".to_string()), size_bytes: 1 };
    assert_eq!(chunk_file_name(&short), "short");
    let none = CloudFile { id: None, name_all: None, name: None, size_bytes: 1 };
    assert_eq!(chunk_file_name(&none), "");
}

#[test]
fn numbered_chunks_are_sorted() {
    let mut files = vec![cloud_file("m_part2.iso", 5), cloud_file("m_part1.iso", 10)];
    assert_eq!(order_cloud_chunks(SECRET, &mut files, 2, 15), Ok(false));
    let names: Vec<&str> = files.iter().map(chunk_file_name).collect();
    assert_eq!(names, vec!["m_part1.iso", "m_part2.iso"]);
}

#[test]
fn chunk_ids_follow_their_files() {
    let mut files = vec![
        CloudFile { id: Some("i2".to_string()), name_all: Some("m_part2.iso".to_string()), name: None, size_bytes: 5 },
        CloudFile { id: Some("i1".to_string()), name_all: Some("m_part1.iso".to_string()), name: None, size_bytes: 10 },
    ];
    assert_eq!(order_cloud_chunks(SECRET, &mut files, 2, 15), Ok(false));
    let ids: Vec<Option<String>> = files.into_iter().map(|f| f.id).collect();
    assert_eq!(ids, vec![Some("i1".to_string()), Some("i2".to_string())]);
}

#[test]
fn chunk_ordering_errors() {
    let mut files = vec![cloud_file("m_part1.iso", 5)];
    assert_eq!(
        order_cloud_chunks(SECRET, &mut files, 2, 5),
        Err("cloud folder contains 1 chunks; expected 2".to_string())
    );
    let mut gap = vec![cloud_file("m_part1.iso", 5), cloud_file("m_part3.iso", 5)];
    assert_eq!(
        order_cloud_chunks(SECRET, &mut gap, 2, 10),
        Err("cloud folder has missing or duplicate chunk indexes".to_string())
    );
    let mut mixed = vec![cloud_file("m_part1.iso", 5), cloud_file("plain", 5)];
    assert_eq!(
        order_cloud_chunks(SECRET, &mut mixed, 2, 10),
        Err("cloud folder mixes recognized and unrecognized chunk indexes".to_string())
    );
}

#[test]
fn unnumbered_chunks_come_newest_first() {
    let mut files = vec![cloud_file("b", 10), cloud_file("a", 104857600)];
    assert_eq!(order_cloud_chunks(SECRET, &mut files, 2, 104857610), Ok(true));
    let names: Vec<&str> = files.iter().map(chunk_file_name).collect();
    assert_eq!(names, vec!["a", "b"]);
}

#[test]
fn share_codes_round_trip() {
    let json = r#"{"n":"movie.mkv"}"#;
    let code = share_code_of(SECRET, json);
    assert!(code.starts_with("heri://"));
    assert_eq!(share_code_json(SECRET, &code), Ok(json.to_string()));
    assert_eq!(
        share_code_json(SECRET, "ftp://nothing"),
        Err("Invalid share code format.".to_string())
    );
}

#[test]
fn removing_every_occurrence() {
    assert_eq!(remove_all("folfolder", "fol"), "der");
    assert_eq!(remove_all("abc", "x"), "abc");
}

#[test]
fn share_prechecks() {
    let dir = node(NodeType::Directory, "123", "");
    assert_eq!(
        share_precheck(&dir),
        Err("Renting whole folders is not currently supported.".to_string())
    );
    let alien = node(NodeType::File, "alien://payload", "1");
    assert_eq!(share_precheck(&alien), Ok(Some("heri://payload".to_string())));
    let own = node(NodeType::File, "555", "1");
    assert_eq!(share_precheck(&own), Ok(None));
    assert!(!is_chunked(&own));
    assert!(is_chunked(&node(NodeType::File, "555", "4")));
}

#[test]
fn share_payloads_from_the_clouds_answer() {
    let own = node(NodeType::File, "555", "4");
    let info = ShareInfo {
        new_url: None,
        is_newd: Some("https://host".to_string()),
        f_id: Some("abc".to_string()),
        pwd: Some("pw".to_string()),
    };
    assert_eq!(share_url(&info), "https://host/abc");
    let p = share_payload_for(&own, &info).unwrap();
    assert_eq!((p.n.as_str(), p.c, p.l.as_str(), p.p.as_str()), ("movie.mkv", 4, "https://host/abc", "pw"));
    let empty = ShareInfo { new_url: None, is_newd: None, f_id: None, pwd: None };
    assert_eq!(share_url(&empty), "/");
    assert_eq!(
        share_payload_for(&own, &empty).err(),
        Some("Could not generate Lanzou link".to_string())
    );
}

#[test]
fn resolve_results_show_the_payload() {
    let payload = SharePayload {
        n: "a.txt".to_string(),
        m: MD5.to_string(),
        s: "9".to_string(),
        c: 2,
        l: "https://x/y".to_string(),
        p: String::new(),
    };
    let r = resolve_result_of(&payload);
    assert_eq!((r.name.as_str(), r.size.as_str(), r.chunks, r.is_folder), ("a.txt", "9", 2, false));
}

#[test]
fn chunk_names_have_a_fixed_length_and_bad_hex_is_refused() {
    let name = encrypt_chunk_filename(SECRET, MD5, 7);
    assert_eq!(name.len(), 2 * (MD5.len() + 4 + 28));
    assert_eq!(decrypt_chunk_filename(SECRET, "abc"), None);
    assert_eq!(decrypt_chunk_filename(SECRET, "00.zip"), None);
}
