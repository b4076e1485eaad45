//! The smaller pieces: chunk shaping, decimal tokens, tags, errors, and
//! the proxy helpers.

use hooya::chunked_reader::{chunk_bytes, ChunkedReader, CHUNK_SIZE};
use hooya::local::ThumbnailRow;
use hooya::mime::mimetype_extension;
use hooya::numstr::{parse_dec_u32, u64_to_dec};
use hooya::proxy::{cache_control_value, closest_thumbnail, content_disposition};
use hooya::imaging::clamp_dimensions;
use hooya::tag::Tag;
use hooya::VaultError;

#[test]
fn chunks_are_bounded_and_lossless() {
    let data: Vec<u8> = (0..(2 * CHUNK_SIZE + 100)).map(|i| (i % 251) as u8).collect();
    let chunks = chunk_bytes(&data);
    assert_eq!(chunks.len(), 3);
    assert_eq!(chunks[0].len(), CHUNK_SIZE);
    assert_eq!(chunks[1].len(), CHUNK_SIZE);
    assert_eq!(chunks[2].len(), 100);
    let joined: Vec<u8> = chunks.concat();
    assert_eq!(joined, data);
}

#[test]
fn empty_buffer_has_no_chunks() {
    assert_eq!(chunk_bytes(&Vec::new()).len(), 0);
    let mut reader = ChunkedReader::new(Vec::new());
    assert!(reader.next().is_none());
}

#[test]
fn reader_walks_once() {
    let mut reader = ChunkedReader::new(vec![1, 2, 3]);
    assert_eq!(reader.next(), Some(vec![1, 2, 3]));
    assert!(reader.next().is_none());
    assert!(reader.next().is_none());
}

#[test]
fn decimal_formatting() {
    assert_eq!(u64_to_dec(0), "0");
    assert_eq!(u64_to_dec(7), "7");
    assert_eq!(u64_to_dec(1280), "1280");
    assert_eq!(u64_to_dec(4294967295), "4294967295");
    assert_eq!(u64_to_dec(u64::MAX), "18446744073709551615");
}

#[test]
fn decimal_parsing() {
    assert_eq!(parse_dec_u32("0"), Ok(0));
    assert_eq!(parse_dec_u32("0042"), Ok(42));
    assert_eq!(parse_dec_u32("4294967295"), Ok(4294967295));
    assert_eq!(parse_dec_u32("4294967296"), Err(VaultError::BadInput));
    assert_eq!(parse_dec_u32(""), Err(VaultError::BadInput));
    assert_eq!(parse_dec_u32("-1"), Err(VaultError::BadInput));
    assert_eq!(parse_dec_u32("1 2"), Err(VaultError::BadInput));
    assert_eq!(parse_dec_u32("12a"), Err(VaultError::BadInput));
}

#[test]
fn tag_string_splits_at_first_colon() {
    let t = Tag::from("artist:ada");
    assert_eq!(t.namespace, "artist");
    assert_eq!(t.descriptor, "ada");
    assert_eq!(t.to_string(), "artist:ada");

    let nested = Tag::from("source:https://example.net/a");
    assert_eq!(nested.namespace, "source");
    assert_eq!(nested.descriptor, "https://example.net/a");
}

#[test]
fn bare_tag_falls_into_general() {
    let t = Tag::from("landscape");
    assert_eq!(t.namespace, "general");
    assert_eq!(t.descriptor, "landscape");
    assert_eq!(t.to_string(), "general:landscape");
}

#[test]
fn error_status_mapping() {
    assert_eq!(VaultError::BadInput.http_status(), 400);
    assert_eq!(VaultError::NotFound.http_status(), 404);
    assert_eq!(VaultError::NotIndexed.http_status(), 500);
    assert_eq!(VaultError::Internal.http_status(), 500);
}

#[test]
fn extension_table() {
    assert_eq!(mimetype_extension("image/jpeg").as_deref(), Some("jpeg"));
    assert_eq!(mimetype_extension("image/png").as_deref(), Some("png"));
    assert_eq!(mimetype_extension("image/gif").as_deref(), Some("gif"));
    assert_eq!(mimetype_extension("video/mp4").as_deref(), Some("mp4"));
    assert_eq!(mimetype_extension("text/plain"), None);
    assert_eq!(mimetype_extension(""), None);
}

fn thumb(width: i64, height: i64) -> ThumbnailRow {
    ThumbnailRow {
        cid: vec![width as u8, height as u8],
        size: 1,
        mimetype: String::from("image/jpeg"),
        source_cid: vec![1],
        height,
        width,
        is_animated: false,
    }
}

#[test]
fn closest_thumbnail_picks_nearest_long_edge() {
    let rows = vec![thumb(320, 160), thumb(640, 320), thumb(1920, 960)];
    assert_eq!(closest_thumbnail(&rows, 1280).width, 1920);
    assert_eq!(closest_thumbnail(&rows, 640).width, 640);
    assert_eq!(closest_thumbnail(&rows, 0).width, 320);
    // A portrait rendition is measured by its height.
    let portrait = vec![thumb(160, 320), thumb(480, 960)];
    assert_eq!(closest_thumbnail(&portrait, 1000).height, 960);
}

#[test]
fn closest_thumbnail_later_tie_wins() {
    let rows = vec![thumb(600, 300), thumb(680, 340)];
    // 640 is 40 away from both long edges; the later row wins.
    assert_eq!(closest_thumbnail(&rows, 640).width, 680);
}

#[test]
fn clamping_display_dimensions() {
    assert_eq!(clamp_dimensions(300, 200, 500, 500), (300, 200));
    assert_eq!(clamp_dimensions(1000, 500, 500, 500), (500, 250));
    assert_eq!(clamp_dimensions(500, 1000, 500, 500), (250, 500));
    assert_eq!(clamp_dimensions(800, 800, 500, 400), (500, 400));
    assert_eq!(clamp_dimensions(1396, 2500, 500, 500), (279, 500));
    // No bound beyond positivity: very large pictures clamp too.
    assert_eq!(
        clamp_dimensions(2_000_000_000, 1_000_000_000, 500, 500),
        (500, 250)
    );
}

#[test]
fn response_header_text() {
    assert_eq!(cache_control_value(), "max-age=31536000, immutable");
    assert_eq!(
        content_disposition("bafy", None, "png"),
        "inline; filename=\"bafy.png\""
    );
    assert_eq!(
        content_disposition("bafy", Some(640), "jpeg"),
        "inline; filename=\"bafy_thumb640.jpeg\""
    );
}
