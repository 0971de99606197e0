use heriheri::stream::{
    content_type_for_name, direct_link_warm_order, media_source_key, next_chunk_window,
    next_seek_chunk_to_warm, normalized_content_type, parse_byte_range,
    upstream_content_type_is_rejected, CachedDirectUrl, CachedMedia, ChunkWindow, MediaCache,
    RecoveryAction, StreamRecovery, CHUNK_SIZE, DIRECT_LINK_REFRESH_AFTER_MS, DIRECT_LINK_TTL_MS,
};
use heriheri::vfs::{NodeType, VfsNode};

#[test]
fn parses_seek_ranges_strictly() {
    assert_eq!(parse_byte_range(None, 100), Ok((0, 99, false)));
    assert_eq!(
        parse_byte_range(Some("bytes=10-19"), 100),
        Ok((10, 19, true))
    );
    assert_eq!(parse_byte_range(Some("bytes=-10"), 100), Ok((90, 99, true)));
    assert!(parse_byte_range(Some("bytes=20-10"), 100).is_err());
    assert!(parse_byte_range(Some("bytes=0-1,3-4"), 100).is_err());
}

#[test]
fn maps_cross_chunk_seek_windows() {
    assert_eq!(
        next_chunk_window(CHUNK_SIZE - 10, 20, 2),
        Some(ChunkWindow {
            index: 0,
            local_start: CHUNK_SIZE - 10,
            local_end: CHUNK_SIZE - 1,
            length: 10,
        })
    );
    assert_eq!(
        next_chunk_window(CHUNK_SIZE, 10, 2),
        Some(ChunkWindow {
            index: 1,
            local_start: 0,
            local_end: 9,
            length: 10,
        })
    );
}

#[test]
fn supports_seek_ranges_beyond_32_bit_offsets() {
    const GIB: u64 = 1024 * 1024 * 1024;
    let start = 5 * GIB + 17;
    let end = start + 4095;
    assert_eq!(
        parse_byte_range(Some(&format!("bytes={start}-{end}")), 6 * GIB),
        Ok((start, end, true))
    );

    let local_start = start % CHUNK_SIZE;
    assert_eq!(
        next_chunk_window(start, 4096, 60),
        Some(ChunkWindow {
            index: usize::try_from(start / CHUNK_SIZE).unwrap(),
            local_start,
            local_end: local_start + 4095,
            length: 4096,
        })
    );
}

#[test]
fn prioritizes_start_tail_and_timeline_regions_during_link_warmup() {
    assert!(direct_link_warm_order(0).is_empty());
    assert_eq!(direct_link_warm_order(1), vec![0]);

    let order = direct_link_warm_order(10);
    assert_eq!(&order[..4], &[0, 9, 1, 5]);
    let mut sorted = order;
    sorted.sort_unstable();
    assert_eq!(sorted, (0..10).collect::<Vec<_>>());
}

#[test]
fn warms_the_chunk_after_a_random_seek() {
    assert_eq!(next_seek_chunk_to_warm(0, 4), Some(1));
    assert_eq!(next_seek_chunk_to_warm(CHUNK_SIZE * 2 + 17, 4), Some(3));
    assert_eq!(next_seek_chunk_to_warm(CHUNK_SIZE * 3, 4), None);
    assert_eq!(next_seek_chunk_to_warm(0, 1), None);
}

#[test]
fn direct_links_refresh_before_they_expire() {
    let now: u64 = 1_000_000;
    let entry = CachedDirectUrl {
        url: "https://cdn.invalid/file".to_string(),
        refresh_at: now + 10_000,
        expires_at: now + 20_000,
    };
    assert!(entry.is_usable_at(now + 15_000));
    assert!(entry.needs_refresh_at(now + 15_000));
    assert!(!entry.is_usable_at(now + 20_000));
}

#[test]
fn bounds_stream_recovery_retries_and_link_refreshes() {
    let mut transport = StreamRecovery::default();
    assert_eq!(transport.transport_failure(), RecoveryAction::RetrySameUrl);
    assert_eq!(transport.transport_failure(), RecoveryAction::RefreshLink);
    assert_eq!(transport.transport_failure(), RecoveryAction::RetrySameUrl);
    assert_eq!(transport.transport_failure(), RecoveryAction::Fail);

    let mut rejection = StreamRecovery::default();
    assert_eq!(rejection.rejected_link(), RecoveryAction::RefreshLink);
    assert_eq!(rejection.rejected_link(), RecoveryAction::Fail);
}

#[test]
fn rejects_cloud_error_payloads_without_rejecting_generic_media() {
    assert!(upstream_content_type_is_rejected(
        "text/html; charset=utf-8",
        "video/mp4"
    ));
    assert!(upstream_content_type_is_rejected(
        "application/json",
        "video/mp4"
    ));
    assert!(upstream_content_type_is_rejected(
        "application/problem+json",
        "audio/mpeg"
    ));
    assert!(!upstream_content_type_is_rejected(
        "application/octet-stream",
        "video/mp4"
    ));
    assert!(!upstream_content_type_is_rejected(
        "application/json; charset=utf-8",
        "application/json"
    ));
    assert!(!upstream_content_type_is_rejected(
        "text/html; charset=utf-8",
        "text/html; charset=utf-8"
    ));
    assert!(!upstream_content_type_is_rejected("video/mp4", "video/mp4"));
    assert!(!upstream_content_type_is_rejected("", "video/mp4"));
}

#[test]
fn maps_advertised_media_and_document_content_types() {
    assert_eq!(content_type_for_name("movie.mpeg"), "video/mpeg");
    assert_eq!(content_type_for_name("audio.wma"), "audio/x-ms-wma");
    assert_eq!(content_type_for_name("data.json"), "application/json");
    assert_eq!(
        content_type_for_name("page.html"),
        "text/html; charset=utf-8"
    );
    assert_eq!(
        content_type_for_name("unknown.bin"),
        "application/octet-stream"
    );
}

fn media(source_key: &str, first_url: &str, now: u64, accessed: u64) -> CachedMedia {
    CachedMedia {
        source_key: source_key.to_string(),
        chunks_str: "2".to_string(),
        total_size: CHUNK_SIZE * 2,
        urls: vec!["share-a".to_string(), "share-b".to_string()],
        chunk_password: None,
        direct_urls: vec![Some(CachedDirectUrl::new(first_url.to_string(), now)), None],
        last_accessed_at: accessed,
    }
}

#[test]
fn replacement_source_is_isolated_from_stale_background_work() {
    const VFS_ID: u64 = u64::MAX - 20;
    let now: u64 = 100_000;
    let original_access = now - 30_000;
    let mut cache = MediaCache::new();
    cache.insert_media(VFS_ID, media("replacement", "replacement-url", now, original_access));

    assert_eq!(cache.cached_direct_url(VFS_ID, "stale", 0, now), None);
    assert!(cache.direct_url_needs_refresh(VFS_ID, "stale", 0, now));
    cache.store_direct_url(VFS_ID, "stale", 0, "stale-url".to_string(), now);
    cache.invalidate_direct_url(VFS_ID, "stale", 0, "stale-url");
    cache.touch_cached_media(VFS_ID, "stale", now);

    assert_eq!(
        cache.cached_direct_url(VFS_ID, "replacement", 0, now),
        Some("replacement-url".to_string())
    );
    assert_eq!(cache.entries[&VFS_ID].last_accessed_at, original_access);

    cache.remove_media(VFS_ID);
    assert!(!cache.cache_contains_source(VFS_ID, "replacement"));
}

#[test]
fn stale_failure_cannot_erase_a_refreshed_direct_link() {
    const VFS_ID: u64 = u64::MAX - 21;
    let now: u64 = 100_000;
    let mut cache = MediaCache::new();
    cache.insert_media(VFS_ID, media("source", "refreshed-url", now, now));

    cache.invalidate_direct_url(VFS_ID, "source", 0, "stale-url");
    assert_eq!(
        cache.cached_direct_url(VFS_ID, "source", 0, now),
        Some("refreshed-url".to_string())
    );

    cache.invalidate_direct_url(VFS_ID, "source", 0, "refreshed-url");
    assert_eq!(cache.cached_direct_url(VFS_ID, "source", 0, now), None);
}

#[test]
fn parses_open_ended_and_clamped_ranges() {
    assert_eq!(parse_byte_range(Some("bytes=90-"), 100), Ok((90, 99, true)));
    assert_eq!(parse_byte_range(Some("bytes=90-500"), 100), Ok((90, 99, true)));
    assert_eq!(parse_byte_range(Some("bytes=-500"), 100), Ok((0, 99, true)));
    assert_eq!(parse_byte_range(Some("bytes=+5-+6"), 100), Ok((5, 6, true)));
    assert!(parse_byte_range(Some("bytes=-0"), 100).is_err());
    assert!(parse_byte_range(Some("bytes=100-"), 100).is_err());
    assert!(parse_byte_range(Some("items=0-1"), 100).is_err());
    assert!(parse_byte_range(Some("bytes=5"), 100).is_err());
    assert!(parse_byte_range(Some("bytes=a-b"), 100).is_err());
    assert!(parse_byte_range(None, 0).is_err());
}

#[test]
fn windows_stop_at_the_end_of_the_file() {
    assert_eq!(next_chunk_window(0, 0, 2), None);
    assert_eq!(next_chunk_window(CHUNK_SIZE * 2, 10, 2), None);
    assert_eq!(
        next_chunk_window(5, CHUNK_SIZE * 3, 3),
        Some(ChunkWindow {
            index: 0,
            local_start: 5,
            local_end: CHUNK_SIZE - 1,
            length: CHUNK_SIZE - 5,
        })
    );
}

#[test]
fn warm_order_lists_every_chunk_once() {
    for n in 0..64usize {
        let mut order = direct_link_warm_order(n);
        assert_eq!(order.len(), n);
        order.sort_unstable();
        assert_eq!(order, (0..n).collect::<Vec<_>>());
    }
    assert_eq!(direct_link_warm_order(2), vec![0, 1]);
    assert_eq!(direct_link_warm_order(3), vec![0, 2, 1]);
    assert_eq!(direct_link_warm_order(4), vec![0, 3, 1, 2]);
}

#[test]
fn a_refreshed_stream_never_refreshes_again() {
    let mut s = StreamRecovery {
        retried_current_url: false,
        refreshed_link: true,
    };
    assert_eq!(s.transport_failure(), RecoveryAction::RetrySameUrl);
    assert_eq!(s.transport_failure(), RecoveryAction::Fail);
    assert_eq!(s.rejected_link(), RecoveryAction::Fail);
    assert!(s.refreshed_link);
}

#[test]
fn new_links_are_due_before_they_expire() {
    let now: u64 = 5_000;
    let e = CachedDirectUrl::new("u".to_string(), now);
    assert_eq!(e.refresh_at, now + DIRECT_LINK_REFRESH_AFTER_MS);
    assert_eq!(e.expires_at, now + DIRECT_LINK_TTL_MS);
    assert!(e.is_usable_at(now + DIRECT_LINK_REFRESH_AFTER_MS));
    assert!(e.needs_refresh_at(now + DIRECT_LINK_REFRESH_AFTER_MS));
    assert!(!e.needs_refresh_at(now + DIRECT_LINK_REFRESH_AFTER_MS - 1));
    assert!(!e.is_usable_at(now + DIRECT_LINK_TTL_MS));
}

#[test]
fn content_types_follow_the_last_extension_in_any_case() {
    assert_eq!(content_type_for_name("MOVIE.MP4"), "video/mp4");
    assert_eq!(content_type_for_name("a.tar.gz"), "application/octet-stream");
    assert_eq!(content_type_for_name("notes.TXT"), "text/plain; charset=utf-8");
    assert_eq!(content_type_for_name("rs"), "text/plain; charset=utf-8");
    assert_eq!(
        content_type_for_name("deck.pptx"),
        "application/vnd.openxmlformats-officedocument.presentationml.presentation"
    );
}

#[test]
fn media_types_are_trimmed_and_lowercased() {
    assert_eq!(normalized_content_type("  Text/HTML ; charset=UTF-8"), "text/html");
    assert_eq!(normalized_content_type(""), "");
    assert!(upstream_content_type_is_rejected(
        "Application/JSON",
        "video/mp4"
    ));
}

#[test]
fn source_keys_count_each_field() {
    let node = VfsNode {
        node_type: NodeType::File,
        id: 7,
        pid: 0,
        name: "movie.mkv".to_string(),
        lanzou_id: "abc".to_string(),
        time: 42,
        size: "1.5 G".to_string(),
        md5: "d41d".to_string(),
        ext: "mkv".to_string(),
        chunks: "16".to_string(),
        is_trashed: false,
        is_deleted: false,
    };
    assert_eq!(media_source_key(&node), "3:abc|2:16|5:1.5 G|4:d41d|42");
    let mut other = node.clone();
    other.lanzou_id = "é".to_string();
    assert_eq!(media_source_key(&other), "2:é|2:16|5:1.5 G|4:d41d|42");
}

#[test]
fn a_stored_link_is_served_until_it_expires() {
    const VFS_ID: u64 = 77;
    let now: u64 = 1_000_000;
    let mut cache = MediaCache::new();
    cache.insert_media(VFS_ID, media("key", "old-url", 0, 0));
    cache.store_direct_url(VFS_ID, "key", 1, "fresh".to_string(), now);
    assert_eq!(cache.cached_direct_url(VFS_ID, "key", 1, now), Some("fresh".to_string()));
    assert_eq!(
        cache.cached_direct_url(VFS_ID, "key", 1, now + DIRECT_LINK_TTL_MS - 1),
        Some("fresh".to_string())
    );
    assert_eq!(cache.cached_direct_url(VFS_ID, "key", 1, now + DIRECT_LINK_TTL_MS), None);
    assert!(!cache.direct_url_needs_refresh(VFS_ID, "key", 1, now + DIRECT_LINK_REFRESH_AFTER_MS - 1));
    assert!(cache.direct_url_needs_refresh(VFS_ID, "key", 1, now + DIRECT_LINK_REFRESH_AFTER_MS));
    assert!(cache.media_is_active(VFS_ID, "key", 599_999));
    assert!(!cache.media_is_active(VFS_ID, "key", 600_000));
    assert!(!cache.media_is_active(VFS_ID, "other", 0));
}

#[test]
fn the_warm_order_halves_the_timeline_breadth_first() {
    assert_eq!(direct_link_warm_order(10), vec![0, 9, 1, 5, 3, 7, 2, 4, 6, 8]);
    assert_eq!(direct_link_warm_order(6), vec![0, 5, 1, 3, 2, 4]);
}
