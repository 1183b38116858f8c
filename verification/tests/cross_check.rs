//! The transcoder against the base64 crate's standard padded engine:
//! both must agree on every input, valid or not.

use base64::engine::general_purpose::STANDARD;
use base64::Engine;
use image_cache::codec::{decode, encode};

#[test]
fn encode_agrees_with_base64_crate() {
    let samples: Vec<Vec<u8>> = vec![
        vec![],
        vec![0],
        vec![255],
        vec![1, 2],
        vec![0xff, 0xd8, 0xff, 0xe0],
        b"any carnal pleasure.".to_vec(),
        (0u8..=255).collect(),
        (0u8..=255).rev().collect(),
    ];
    for bytes in samples {
        assert_eq!(encode(&bytes), STANDARD.encode(&bytes));
    }
}

#[test]
fn decode_agrees_with_base64_crate() {
    let texts = [
        "", "Zg==", "Zm8=", "Zm9v", "Zm9vYmFy", "/9j/4A==", "AAAA", "++//", "aGVsbG8=",
        "A", "AB", "ABC", "AAAAA", "====", "A===", "=AAA", "AB=C", "AB!=", "ab==", "abc=",
        "Zh==", "Zg==Zg==", "AA==AAAA", "AA\n=",
    ];
    for text in texts {
        let ours = decode(text);
        let theirs = STANDARD.decode(text);
        assert_eq!(ours.is_ok(), theirs.is_ok(), "disagree on {:?}", text);
        if let (Ok(a), Ok(b)) = (ours, theirs) {
            assert_eq!(a, b, "values disagree on {:?}", text);
        }
    }
}

#[test]
fn crate_decodes_what_we_encode() {
    let samples: Vec<Vec<u8>> = vec![vec![], vec![7], vec![1, 2, 3], (0u8..100).collect()];
    for bytes in samples {
        assert_eq!(STANDARD.decode(encode(&bytes)).unwrap(), bytes);
    }
}
