//! The derivative subflow against real pictures: mimetype inference,
//! the thumbnail ladder, and EXIF orientation.

use std::io::Cursor;

use hooya::runtime::Runtime;

fn fresh() -> Runtime {
    Runtime::new(String::from("/var/lib/vault"))
}

fn png_bytes(width: u32, height: u32) -> Vec<u8> {
    let img = image::DynamicImage::ImageRgba8(image::RgbaImage::from_pixel(
        width,
        height,
        image::Rgba([40, 90, 160, 255]),
    ));
    let mut cursor = Cursor::new(Vec::new());
    img.write_to(&mut cursor, image::ImageFormat::Png).unwrap();
    cursor.into_inner()
}

fn jpeg_bytes(width: u32, height: u32) -> Vec<u8> {
    let img = image::DynamicImage::ImageRgb8(image::RgbImage::from_pixel(
        width,
        height,
        image::Rgb([200, 120, 40]),
    ));
    let mut cursor = Cursor::new(Vec::new());
    img.write_to(&mut cursor, image::ImageFormat::Jpeg).unwrap();
    cursor.into_inner()
}

/// The same JPEG with an EXIF APP1 segment carrying the given
/// orientation, spliced in right after the start-of-image marker.
fn jpeg_with_orientation(width: u32, height: u32, orientation: u16) -> Vec<u8> {
    let plain = jpeg_bytes(width, height);
    let field = exif::Field {
        tag: exif::Tag::Orientation,
        ifd_num: exif::In::PRIMARY,
        value: exif::Value::Short(vec![orientation]),
    };
    let mut writer = exif::experimental::Writer::new();
    writer.push_field(&field);
    let mut tiff = Cursor::new(Vec::new());
    writer.write(&mut tiff, false).unwrap();
    let tiff = tiff.into_inner();

    let mut out = Vec::new();
    out.extend_from_slice(&plain[..2]);
    out.extend_from_slice(&[0xff, 0xe1]);
    let seg_len = (2 + 6 + tiff.len()) as u16;
    out.extend_from_slice(&seg_len.to_be_bytes());
    out.extend_from_slice(b"Exif\0\0");
    out.extend_from_slice(&tiff);
    out.extend_from_slice(&plain[2..]);
    out
}

fn long_edge(t: &hooya::local::ThumbnailRow) -> i64 {
    if t.width > t.height {
        t.width
    } else {
        t.height
    }
}

#[test]
fn png_mimetype_is_inferred() {
    let mut rt = fresh();
    let cid = rt.stream_to_filestore(vec![png_bytes(40, 30)]).unwrap();
    let info = rt.indexed_file(&cid).unwrap();
    assert_eq!(info.mimetype.as_deref(), Some("image/png"));
}

#[test]
fn unidentified_bytes_commit_without_mimetype() {
    let mut rt = fresh();
    let cid = rt.stream_to_filestore(vec![vec![0x00, 0x01, 0x02]]).unwrap();
    let info = rt.indexed_file(&cid).unwrap();
    assert_eq!(info.mimetype, None);
    assert_eq!(rt.db.images.len(), 0);
    assert_eq!(rt.db.thumbnails.len(), 0);
}

#[test]
fn thumbnail_ladder() {
    let mut rt = fresh();
    let cid = rt.stream_to_filestore(vec![png_bytes(2000, 1000)]).unwrap();

    assert_eq!(rt.db.images.len(), 1);
    assert_eq!(rt.db.images[0].cid, cid);
    assert_eq!(rt.db.images[0].width, 2000);
    assert_eq!(rt.db.images[0].height, 1000);

    assert_eq!(rt.db.thumbnails.len(), 5);
    let mut edges: Vec<i64> = rt.db.thumbnails.iter().map(long_edge).collect();
    edges.sort();
    assert_eq!(edges, vec![320, 640, 960, 1280, 1920]);
    for t in &rt.db.thumbnails {
        assert_eq!(t.mimetype, "image/jpeg");
        assert_eq!(t.source_cid, cid);
        assert!(!t.is_animated);
        assert!(t.size > 0);
        // Aspect ratio preserved: the short edge is half the long edge.
        assert_eq!(t.height * 2, t.width);
        // The rendition is readable back under its rung, its recorded
        // size is the byte count, and its CID is the wrapped SHA-256 of
        // those bytes.
        let chunks = rt.cid_thumbnail(&cid, long_edge(t) as u32).unwrap();
        let jpeg: Vec<u8> = chunks.concat();
        assert_eq!(jpeg.len() as i64, t.size);
        let digest = ring::digest::digest(&ring::digest::SHA256, &jpeg);
        let mut expected = vec![0x01, 0x55, 0x12, 0x20];
        expected.extend_from_slice(digest.as_ref());
        assert_eq!(t.cid, expected);
    }
}

#[test]
fn small_image_gets_no_thumbnails() {
    let mut rt = fresh();
    let cid = rt.stream_to_filestore(vec![png_bytes(300, 200)]).unwrap();
    assert_eq!(rt.db.images.len(), 1);
    assert_eq!(rt.db.thumbnails.len(), 0);
    assert_eq!(
        rt.cid_thumbnail(&cid, 320).unwrap_err(),
        hooya::VaultError::NotFound
    );
}

#[test]
fn middle_rungs_only() {
    let mut rt = fresh();
    rt.stream_to_filestore(vec![png_bytes(700, 500)]).unwrap();
    let mut edges: Vec<i64> = rt.db.thumbnails.iter().map(long_edge).collect();
    edges.sort();
    assert_eq!(edges, vec![320, 640]);
}

#[test]
fn reingest_adds_no_thumbnail_rows() {
    let mut rt = fresh();
    let body = png_bytes(900, 600);
    let first = rt.stream_to_filestore(vec![body.clone()]).unwrap();
    let rows_after_first = rt.db.thumbnails.len();
    let second = rt.stream_to_filestore(vec![body]).unwrap();
    assert_eq!(first, second);
    assert_eq!(rt.db.files.len(), 1);
    assert_eq!(rt.db.images.len(), 1);
    assert_eq!(rt.db.thumbnails.len(), rows_after_first);
}

#[test]
fn orientation_sideways_swaps_edges() {
    let mut rt = fresh();
    let body = jpeg_with_orientation(1200, 800, 6);
    let cid = rt.stream_to_filestore(vec![body]).unwrap();
    let info = rt.indexed_file(&cid).unwrap();
    assert_eq!(info.mimetype.as_deref(), Some("image/jpeg"));

    let rung640: Vec<&hooya::local::ThumbnailRow> = rt
        .db
        .thumbnails
        .iter()
        .filter(|t| long_edge(t) == 640)
        .collect();
    assert_eq!(rung640.len(), 1);
    // A quarter turn clockwise makes the upright rendition taller than
    // it is wide.
    assert!(rung640[0].width < rung640[0].height);
    assert_eq!(rung640[0].height, 640);
    assert_eq!(rung640[0].width, 427);
}

#[test]
fn upright_orientation_keeps_edges() {
    let mut rt = fresh();
    let body = jpeg_with_orientation(1200, 800, 1);
    rt.stream_to_filestore(vec![body]).unwrap();
    let rung640: Vec<&hooya::local::ThumbnailRow> = rt
        .db
        .thumbnails
        .iter()
        .filter(|t| long_edge(t) == 640)
        .collect();
    assert_eq!(rung640.len(), 1);
    assert!(rung640[0].width > rung640[0].height);
    assert_eq!(rung640[0].width, 640);
}
