//! The CID codec: wrapping, display form, and the round trip.

use hooya::codec::{decode, encode, wrap_digest};
use hooya::VaultError;

#[test]
fn wrap_digest_prepends_headers() {
    let digest: Vec<u8> = (0u8..32).collect();
    let cid = wrap_digest(&digest).unwrap();
    assert_eq!(cid.len(), 36);
    assert_eq!(&cid[..4], &[0x01, 0x55, 0x12, 0x20]);
    assert_eq!(&cid[4..], &digest[..]);
}

#[test]
fn wrap_digest_rejects_wrong_length() {
    assert_eq!(wrap_digest(&vec![0u8; 31]), Err(VaultError::BadInput));
    assert_eq!(wrap_digest(&vec![0u8; 33]), Err(VaultError::BadInput));
    assert_eq!(wrap_digest(&Vec::new()), Err(VaultError::BadInput));
}

#[test]
fn encode_known_value() {
    // SHA-256 of "abc" (a well-known digest test vector), wrapped.
    let digest: Vec<u8> = vec![
        0xba, 0x78, 0x16, 0xbf, 0x8f, 0x01, 0xcf, 0xea, 0x41, 0x41, 0x40, 0xde, 0x5d, 0xae,
        0x22, 0x23, 0xb0, 0x03, 0x61, 0xa3, 0x96, 0x17, 0x7a, 0x9c, 0xb4, 0x10, 0xff, 0x61,
        0xf2, 0x00, 0x15, 0xad,
    ];
    let cid = wrap_digest(&digest).unwrap();
    assert_eq!(
        encode(&cid),
        "bafkreif2pall7dybz7vecqka3zo24irdwabwdi4wc55jznaq75q7eaavvu"
    );
}

#[test]
fn encode_empty_is_just_prefix() {
    assert_eq!(encode(&Vec::new()), "b");
}

#[test]
fn decode_inverts_encode() {
    let samples: Vec<Vec<u8>> = vec![
        vec![],
        vec![0x61],
        vec![0x61, 0x62],
        vec![0x61, 0x62, 0x63],
        vec![0xff, 0x00, 0x10, 0x20, 0x30],
        (0u8..36).collect(),
        (0u8..255).collect(),
    ];
    for bytes in samples {
        let text = encode(&bytes);
        let (base, back) = decode(&text).unwrap();
        assert_eq!(base, 0x62);
        assert_eq!(back, bytes);
    }
}

#[test]
fn decode_rejects_malformed() {
    // Empty, wrong multibase prefix, alphabet violations, bad lengths,
    // and non-ASCII input.
    assert_eq!(decode(""), Err(VaultError::BadInput));
    assert_eq!(decode("zabc"), Err(VaultError::BadInput));
    assert_eq!(decode("bABC"), Err(VaultError::BadInput));
    assert_eq!(decode("b1"), Err(VaultError::BadInput));
    assert_eq!(decode("b0"), Err(VaultError::BadInput));
    assert_eq!(decode("ba"), Err(VaultError::BadInput));
    assert_eq!(decode("baaa"), Err(VaultError::BadInput));
    assert_eq!(decode("baaaaaa"), Err(VaultError::BadInput));
    assert_eq!(decode("bä"), Err(VaultError::BadInput));
}

#[test]
fn decode_accepts_every_tail_shape() {
    for len in 0..32usize {
        let bytes: Vec<u8> = (0..len as u8).map(|b| b.wrapping_mul(37)).collect();
        let (_, back) = decode(&encode(&bytes)).unwrap();
        assert_eq!(back, bytes);
    }
}
