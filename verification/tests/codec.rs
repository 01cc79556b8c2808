use minigit::git_objects::blob::create_blob_object;
use minigit::git_objects::framing::{frame, unframe};
use minigit::git_objects::hash::{
    bytes_to_hex, calculate_object_hash, hex_to_bytes, validate_sha1,
};
use minigit::git_objects::path::git_object_path;
use minigit::git_objects::zlib::{compress, decompress};
use minigit::git_objects::GitObjectType;
use minigit::GitError;

#[test]
fn hash_is_deterministic() {
    let a = calculate_object_hash(b"some payload");
    let b = calculate_object_hash(b"some payload");
    assert_eq!(a, b);
}

#[test]
fn hash_differs_on_different_input() {
    let inputs: Vec<&[u8]> = vec![b"", b"a", b"b", b"ab", b"ba", b"hello", b"hello\n"];
    for (i, x) in inputs.iter().enumerate() {
        for (j, y) in inputs.iter().enumerate() {
            let hx = calculate_object_hash(x);
            let hy = calculate_object_hash(y);
            if i == j {
                assert_eq!(hx, hy);
            } else {
                assert_ne!(hx, hy);
            }
        }
    }
}

#[test]
fn hash_of_empty_input_is_the_known_digest() {
    let h = calculate_object_hash(b"");
    assert_eq!(h, "da39a3ee5e6b4b0d3255bfef95601890afd80709");
}

#[test]
fn blob_framing_exact_bytes() {
    let payload = create_blob_object(b"hello");
    assert_eq!(payload, b"blob 5\0hello".to_vec());
}

#[test]
fn blob_framing_empty_body() {
    let payload = create_blob_object(b"");
    assert_eq!(payload, b"blob 0\0".to_vec());
}

#[test]
fn unframe_inverts_frame_for_all_types() {
    let types = vec![GitObjectType::Blob, GitObjectType::Tree, GitObjectType::Commit];
    let bodies: Vec<&[u8]> = vec![b"", b"x", b"hello world", b"\0\0binary\xff"];
    for t in &types {
        for body in &bodies {
            let framed = frame(*t, body);
            let (t2, body2) = unframe(framed.as_slice()).expect("framed payload must unframe");
            assert_eq!(t2, *t);
            assert_eq!(body2, body.to_vec());
        }
    }
}

#[test]
fn unframe_rejects_missing_null() {
    assert_eq!(unframe(b"blob 5hello"), Err(GitError::Format));
}

#[test]
fn unframe_rejects_unknown_type() {
    assert_eq!(unframe(b"glob 5\0hello"), Err(GitError::Format));
}

#[test]
fn unframe_rejects_length_mismatch() {
    assert_eq!(unframe(b"blob 4\0hello"), Err(GitError::Format));
    assert_eq!(unframe(b"blob 6\0hello"), Err(GitError::Format));
}

#[test]
fn unframe_rejects_noncanonical_length() {
    assert_eq!(unframe(b"blob 05\0hello"), Err(GitError::Format));
    assert_eq!(unframe(b"blob x\0hello"), Err(GitError::Format));
    assert_eq!(unframe(b"blob \0"), Err(GitError::Format));
}

#[test]
fn unframe_rejects_oversized_length() {
    assert_eq!(
        unframe(b"blob 99999999999999999999999\0hello"),
        Err(GitError::Format)
    );
}

#[test]
fn compress_roundtrip() {
    let bodies: Vec<&[u8]> = vec![
        b"",
        b"a",
        b"hello hello hello hello",
        b"\x00\x01\x02\xff\xfe\xfd",
    ];
    for body in &bodies {
        let c = compress(body);
        let d = decompress(c.as_slice()).expect("a compressed stream must decompress");
        assert_eq!(d, body.to_vec());
    }
}

#[test]
fn compress_changes_representation() {
    let body = b"aaaaaaaaaaaaaaaaaaaaaaaaaaaaaaaaaaaaaaaaaaaaaaaaaaaaaaaa";
    let c = compress(body);
    assert_ne!(c, body.to_vec());
}

#[test]
fn decompress_rejects_garbage() {
    assert_eq!(decompress(b"not a zlib stream"), Err(GitError::Corruption));
    assert_eq!(decompress(b""), Err(GitError::Corruption));
}

#[test]
fn validate_sha1_accepts_hex_of_both_cases() {
    assert_eq!(validate_sha1("da39a3ee5e6b4b0d3255bfef95601890afd80709"), Ok(()));
    assert_eq!(validate_sha1("DA39A3EE5E6B4B0D3255BFEF95601890AFD80709"), Ok(()));
}

#[test]
fn validate_sha1_rejects_wrong_length() {
    assert_eq!(validate_sha1(""), Err(GitError::Format));
    assert_eq!(validate_sha1("da39a3ee"), Err(GitError::Format));
    assert_eq!(
        validate_sha1("da39a3ee5e6b4b0d3255bfef95601890afd807091"),
        Err(GitError::Format)
    );
}

#[test]
fn validate_sha1_rejects_non_hex() {
    assert_eq!(
        validate_sha1("ga39a3ee5e6b4b0d3255bfef95601890afd80709"),
        Err(GitError::Format)
    );
    assert_eq!(
        validate_sha1("da39a3ee5e6b4b0d3255bfef95601890afd8070é"),
        Err(GitError::Format)
    );
}

#[test]
fn hex_to_bytes_exact_values() {
    let v = hex_to_bytes("000102030405060708090a0b0c0d0e0f10fffe7f").unwrap();
    assert_eq!(
        v,
        vec![0, 1, 2, 3, 4, 5, 6, 7, 8, 9, 10, 11, 12, 13, 14, 15, 16, 255, 254, 127]
    );
}

#[test]
fn hex_to_bytes_rejects_invalid_text() {
    assert_eq!(hex_to_bytes("00"), Err(GitError::Format));
    assert_eq!(
        hex_to_bytes("zz0102030405060708090a0b0c0d0e0f10fffe7f"),
        Err(GitError::Format)
    );
}

#[test]
fn hex_roundtrip() {
    let bytes: Vec<u8> = (0..20).map(|i| (i * 12 + 7) as u8).collect();
    let hex = bytes_to_hex(bytes.as_slice());
    assert_eq!(hex.len(), 40);
    assert_eq!(hex_to_bytes(&hex).unwrap(), bytes);
}

#[test]
fn object_path_splits_the_fingerprint() {
    let p = git_object_path("da39a3ee5e6b4b0d3255bfef95601890afd80709");
    assert_eq!(p, ".git/objects/da/39a3ee5e6b4b0d3255bfef95601890afd80709");
}
