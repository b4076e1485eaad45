//! End-to-end vault scenarios: ingestion, tagging, reads, pagination.

use hooya::codec::encode;
use hooya::runtime::Runtime;
use hooya::tag::Tag;
use hooya::VaultError;

fn fresh() -> Runtime {
    Runtime::new(String::from("/var/lib/vault"))
}

fn tag(namespace: &str, descriptor: &str) -> Tag {
    Tag {
        namespace: String::from(namespace),
        descriptor: String::from(descriptor),
    }
}

#[test]
fn empty_upload_rejected() {
    let mut rt = fresh();
    assert_eq!(rt.stream_to_filestore(vec![]), Err(VaultError::BadInput));
    assert_eq!(
        rt.stream_to_filestore(vec![vec![], vec![]]),
        Err(VaultError::BadInput)
    );
    assert_eq!(rt.db.files.len(), 0);
}

#[test]
fn roundtrip_three_bytes() {
    let mut rt = fresh();
    let cid = rt.stream_to_filestore(vec![vec![0x61, 0x62, 0x63]]).unwrap();
    assert_eq!(
        encode(&cid),
        "bafkreif2pall7dybz7vecqka3zo24irdwabwdi4wc55jznaq75q7eaavvu"
    );
    let chunks = rt.content_at_cid(&cid).unwrap();
    assert_eq!(chunks.len(), 1);
    assert_eq!(chunks[0], vec![0x61, 0x62, 0x63]);
}

#[test]
fn chunked_ingest_joins_chunks() {
    let mut rt = fresh();
    let split = rt
        .stream_to_filestore(vec![vec![0x61], vec![0x62, 0x63]])
        .unwrap();
    let whole = rt.stream_to_filestore(vec![vec![0x61, 0x62, 0x63]]).unwrap();
    assert_eq!(split, whole);
}

#[test]
fn ingest_twice_one_row() {
    let mut rt = fresh();
    let body = vec![9u8; 4000];
    let first = rt.stream_to_filestore(vec![body.clone()]).unwrap();
    let second = rt.stream_to_filestore(vec![body.clone()]).unwrap();
    assert_eq!(first, second);
    assert_eq!(rt.db.files.len(), 1);
    assert_eq!(rt.db.files[0].size, 4000);
    let info = rt.indexed_file(&first).unwrap();
    assert_eq!(info.cid, first);
    assert_eq!(info.size, 4000);
}

#[test]
fn unknown_cid_not_found() {
    let rt = fresh();
    let bogus = vec![1u8; 36];
    assert_eq!(rt.indexed_file(&bogus).unwrap_err(), VaultError::NotFound);
    assert_eq!(rt.content_at_cid(&bogus).unwrap_err(), VaultError::NotFound);
    assert_eq!(rt.content_at_cid(&Vec::new()).unwrap_err(), VaultError::BadInput);
}

#[test]
fn tag_before_ingest_fails() {
    let mut rt = fresh();
    let bogus = vec![7u8; 32];
    let r = rt.tag_cid(&bogus, &vec![tag("general", "foo")]);
    assert_eq!(r, Err(VaultError::NotIndexed));
    assert_eq!(rt.db.tags.len(), 0);
    assert_eq!(rt.db.tag_map.len(), 0);
}

#[test]
fn tag_cid_twice_changes_nothing_after_first() {
    let mut rt = fresh();
    let cid = rt.stream_to_filestore(vec![vec![1, 2, 3, 4]]).unwrap();
    let tags = vec![tag("general", "landscape"), tag("artist", "ada")];
    rt.tag_cid(&cid, &tags).unwrap();
    let vocab_after_first: Vec<(i32, String, String)> = rt
        .db
        .tags
        .iter()
        .map(|t| (t.id, t.namespace.clone(), t.descriptor.clone()))
        .collect();
    let map_after_first: Vec<(Vec<u8>, i32)> = rt
        .db
        .tag_map
        .iter()
        .map(|m| (m.file_cid.clone(), m.tag_id))
        .collect();
    assert_eq!(rt.db.tag_map.len(), 2);

    rt.tag_cid(&cid, &tags).unwrap();
    let vocab_after_second: Vec<(i32, String, String)> = rt
        .db
        .tags
        .iter()
        .map(|t| (t.id, t.namespace.clone(), t.descriptor.clone()))
        .collect();
    let map_after_second: Vec<(Vec<u8>, i32)> = rt
        .db
        .tag_map
        .iter()
        .map(|m| (m.file_cid.clone(), m.tag_id))
        .collect();
    assert_eq!(vocab_after_first, vocab_after_second);
    assert_eq!(map_after_first, map_after_second);
}

#[test]
fn tags_come_back() {
    let mut rt = fresh();
    let cid = rt.stream_to_filestore(vec![vec![5, 6, 7]]).unwrap();
    rt.tag_cid(&cid, &vec![tag("general", "cat"), tag("rating", "safe")])
        .unwrap();
    let got = rt.tags(&cid);
    assert_eq!(got.len(), 2);
    assert_eq!(got[0].namespace, "general");
    assert_eq!(got[0].descriptor, "cat");
    assert_eq!(got[1].namespace, "rating");
    assert_eq!(got[1].descriptor, "safe");
    // Another file shares the vocabulary but not the mapping.
    let other = rt.stream_to_filestore(vec![vec![8, 9]]).unwrap();
    assert_eq!(rt.tags(&other).len(), 0);
    rt.tag_cid(&other, &vec![tag("general", "cat")]).unwrap();
    assert_eq!(rt.db.tags.len(), 2);
    assert_eq!(rt.tags(&other).len(), 1);
}

#[test]
fn pagination_continuity() {
    let mut rt = fresh();
    let a = rt.stream_to_filestore(vec![vec![0xa1]]).unwrap();
    let b = rt.stream_to_filestore(vec![vec![0xb2]]).unwrap();
    let c = rt.stream_to_filestore(vec![vec![0xc3]]).unwrap();

    let (page1, token1) = rt
        .local_file_page(2, String::from("0"), false)
        .unwrap();
    assert_eq!(page1.len(), 2);
    assert_eq!(page1[0].cid, c);
    assert_eq!(page1[1].cid, b);
    assert_eq!(token1, "2");

    let (page2, token2) = rt.local_file_page(2, token1, false).unwrap();
    assert_eq!(page2.len(), 1);
    assert_eq!(page2[0].cid, a);
    assert_eq!(token2, "4");

    let (page3, token3) = rt.local_file_page(2, token2, false).unwrap();
    assert_eq!(page3.len(), 0);
    assert_eq!(token3, "6");

    let (oldest, _) = rt.local_file_page(3, String::from("0"), true).unwrap();
    assert_eq!(oldest[0].cid, a);
    assert_eq!(oldest[1].cid, b);
    assert_eq!(oldest[2].cid, c);
}

#[test]
fn bad_page_tokens() {
    let rt = fresh();
    assert_eq!(
        rt.local_file_page(2, String::from("seven"), false).unwrap_err(),
        VaultError::BadInput
    );
    assert_eq!(
        rt.local_file_page(2, String::from(""), false).unwrap_err(),
        VaultError::BadInput
    );
    assert_eq!(
        rt.local_file_page(2, String::from("4294967296"), false).unwrap_err(),
        VaultError::BadInput
    );
    assert!(rt.local_file_page(2, String::from("4294967295"), false).is_ok());
}

#[test]
fn random_sample_without_replacement() {
    let mut rt = fresh();
    let mut cids = Vec::new();
    for i in 0u8..5 {
        cids.push(rt.stream_to_filestore(vec![vec![i, i, i]]).unwrap());
    }
    let sample = rt.random_local_file(3);
    assert_eq!(sample.len(), 3);
    for f in &sample {
        assert!(cids.contains(&f.cid));
    }
    assert!(sample[0].cid != sample[1].cid);
    assert!(sample[0].cid != sample[2].cid);
    assert!(sample[1].cid != sample[2].cid);
    assert_eq!(rt.random_local_file(50).len(), 5);
    assert_eq!(rt.random_local_file(0).len(), 0);
}

#[test]
fn store_path_shape() {
    let rt = fresh();
    let cid = vec![0x01, 0x55, 0x12, 0x20, 0u8];
    let enc = encode(&cid);
    let path = rt.derive_store_path(&cid).unwrap();
    assert_eq!(
        path,
        format!("/var/lib/vault/store/{}/{}", &enc[..enc.len().min(11)], enc)
    );
    assert_eq!(
        rt.derive_store_path(&Vec::new()).unwrap_err(),
        VaultError::BadInput
    );
}

#[test]
fn thumb_path_shape() {
    let rt = fresh();
    let cid: Vec<u8> = (0u8..36).collect();
    let enc = encode(&cid);
    let path = rt.derive_thumb_path(&cid, 640).unwrap();
    assert_eq!(
        path,
        format!("/var/lib/vault/thumbs/640/{}/{}_thumb640", &enc[..11], enc)
    );
    assert_eq!(
        rt.derive_thumb_path(&Vec::new(), 640).unwrap_err(),
        VaultError::BadInput
    );
}
