use minigit::git_objects::blob::create_blob_object;
use minigit::git_objects::commit::{create_commit_object, CommitIdentity};
use minigit::git_objects::hash::{calculate_object_hash, hex_to_bytes};
use minigit::git_objects::store::MemoryStore;
use minigit::git_objects::tree::{
    build_tree_content, parse_tree_entries, sort_tree_entries, TreeEntry,
};
use minigit::git_objects::{FileMode, GitObjectType};
use minigit::GitError;

fn identity() -> CommitIdentity {
    CommitIdentity {
        name: String::from("Hugo"),
        email: String::from("test@example.com"),
        timezone: String::from("+0000"),
    }
}

fn entry(mode: FileMode, name: &str, sha: &str) -> (FileMode, String, String) {
    (mode, String::from(name), String::from(sha))
}

const SHA_A: &str = "aaaaaaaaaaaaaaaaaaaaaaaaaaaaaaaaaaaaaaaa";
const SHA_B: &str = "0123456789abcdef0123456789abcdef01234567";

#[test]
fn tree_roundtrip_sorted() {
    let entries = vec![
        entry(FileMode::Directory, "dir", SHA_A),
        entry(FileMode::RegularFile, "file.txt", SHA_B),
        entry(FileMode::ExecutableFile, "run.sh", SHA_A),
        entry(FileMode::SymbolicLink, "zlink", SHA_B),
    ];
    let payload = build_tree_content(&entries).unwrap();
    let decoded = parse_tree_entries(payload.as_slice()).unwrap();
    assert_eq!(decoded.len(), entries.len());
    for (d, e) in decoded.iter().zip(entries.iter()) {
        assert_eq!(d.mode, e.0);
        assert_eq!(d.name, e.1);
        assert_eq!(d.sha1, e.2);
        assert_eq!(d.object_type, d.mode.to_object_type());
    }
}

#[test]
fn tree_roundtrip_keeps_unsorted_order() {
    let entries = vec![
        entry(FileMode::RegularFile, "zebra", SHA_B),
        entry(FileMode::RegularFile, "apple", SHA_A),
    ];
    let payload = build_tree_content(&entries).unwrap();
    let decoded = parse_tree_entries(payload.as_slice()).unwrap();
    assert_eq!(decoded[0].name, "zebra");
    assert_eq!(decoded[1].name, "apple");
}

#[test]
fn tree_roundtrip_non_ascii_name() {
    let entries = vec![entry(FileMode::RegularFile, "héllo wörld.txt", SHA_B)];
    let payload = build_tree_content(&entries).unwrap();
    let decoded = parse_tree_entries(payload.as_slice()).unwrap();
    assert_eq!(decoded[0].name, "héllo wörld.txt");
    assert_eq!(decoded[0].sha1, SHA_B);
}

#[test]
fn tree_roundtrip_name_with_space() {
    // the mode token ends at the first space, so a space in the name is kept
    let entries = vec![entry(FileMode::RegularFile, "my file.txt", SHA_A)];
    let payload = build_tree_content(&entries).unwrap();
    let decoded = parse_tree_entries(payload.as_slice()).unwrap();
    assert_eq!(decoded[0].name, "my file.txt");
}

#[test]
fn tree_roundtrip_empty_name() {
    let entries = vec![entry(FileMode::RegularFile, "", SHA_A)];
    let payload = build_tree_content(&entries).unwrap();
    let decoded = parse_tree_entries(payload.as_slice()).unwrap();
    assert_eq!(decoded[0].name, "");
    assert_eq!(decoded[0].sha1, SHA_A);
}

#[test]
fn tree_encoding_exact_bytes() {
    let entries = vec![entry(FileMode::RegularFile, "a.txt", SHA_B)];
    let payload = build_tree_content(&entries).unwrap();
    let mut expected = b"tree 33\0100644 a.txt\0".to_vec();
    expected.extend_from_slice(&hex_to_bytes(SHA_B).unwrap());
    assert_eq!(payload, expected);
}

#[test]
fn tree_empty_directory_encodes_to_empty_body() {
    let entries: Vec<(FileMode, String, String)> = vec![];
    let payload = build_tree_content(&entries).unwrap();
    assert_eq!(payload, b"tree 0\0".to_vec());
    let decoded = parse_tree_entries(payload.as_slice()).unwrap();
    assert!(decoded.is_empty());
}

#[test]
fn tree_encoding_rejects_invalid_sha() {
    let entries = vec![entry(FileMode::RegularFile, "a.txt", "nothex")];
    assert!(matches!(build_tree_content(&entries), Err(GitError::Format)));
}

#[test]
fn tree_decoding_rejects_malformed_bodies() {
    // no space after the mode
    assert!(parse_tree_entries(b"tree 6\0100644").is_err());
    // no null after the name
    assert!(parse_tree_entries(b"tree 12\0100644 a.txt").is_err());
    // truncated fingerprint
    assert!(parse_tree_entries(b"tree 16\0100644 a.txt\0abc").is_err());
    // unrecognized mode
    assert!(parse_tree_entries(b"tree 9\0999999 a\0").is_err());
    // not a tree object at all
    assert!(parse_tree_entries(b"blob 5\0hello").is_err());
}

#[test]
fn tree_builder_scenario_single_file() {
    // one file "a.txt" holding "hello": its entry points at the fingerprint
    // of the blob-framed payload
    let blob = create_blob_object(b"hello");
    assert_eq!(blob, b"blob 5\0hello".to_vec());
    let blob_hash = calculate_object_hash(&blob);
    let entries = vec![entry(FileMode::RegularFile, "a.txt", &blob_hash)];
    let payload = build_tree_content(&entries).unwrap();
    let decoded = parse_tree_entries(payload.as_slice()).unwrap();
    assert_eq!(decoded.len(), 1);
    assert_eq!(decoded[0].name, "a.txt");
    assert_eq!(decoded[0].mode, FileMode::RegularFile);
    assert_eq!(decoded[0].sha1, blob_hash);
    assert_eq!(decoded[0].object_type, GitObjectType::Blob);
}

#[test]
fn tree_builder_scenario_subdirectory_order() {
    // a subdirectory "d" and a sibling file "e" come out in order [d, e]
    let unsorted = vec![
        entry(FileMode::RegularFile, "e", SHA_B),
        entry(FileMode::Directory, "d", SHA_A),
    ];
    let sorted = sort_tree_entries(unsorted);
    assert_eq!(sorted[0].1, "d");
    assert_eq!(sorted[1].1, "e");
    let payload = build_tree_content(&sorted).unwrap();
    let decoded = parse_tree_entries(payload.as_slice()).unwrap();
    assert_eq!(decoded[0].name, "d");
    assert_eq!(decoded[0].object_type, GitObjectType::Tree);
    assert_eq!(decoded[1].name, "e");
    assert_eq!(decoded[1].object_type, GitObjectType::Blob);
}

#[test]
fn sort_orders_bytewise_and_keeps_entries() {
    let unsorted = vec![
        entry(FileMode::RegularFile, "b", SHA_A),
        entry(FileMode::RegularFile, "a.txt", SHA_B),
        entry(FileMode::RegularFile, "a", SHA_A),
        entry(FileMode::RegularFile, "ab", SHA_B),
    ];
    let sorted = sort_tree_entries(unsorted);
    let names: Vec<&str> = sorted.iter().map(|e| e.1.as_str()).collect();
    assert_eq!(names, vec!["a", "a.txt", "ab", "b"]);
}

#[test]
fn mode_determines_object_type() {
    assert_eq!(FileMode::RegularFile.to_object_type(), GitObjectType::Blob);
    assert_eq!(FileMode::ExecutableFile.to_object_type(), GitObjectType::Blob);
    assert_eq!(FileMode::SymbolicLink.to_object_type(), GitObjectType::Blob);
    assert_eq!(FileMode::Directory.to_object_type(), GitObjectType::Tree);
}

#[test]
fn commit_payload_without_parent() {
    let payload = create_commit_object(SHA_B, None, "msg", &identity(), 1700000000);
    let body = format!(
        "tree {SHA_B}\nauthor Hugo <test@example.com> 1700000000 +0000\ncommitter Hugo <test@example.com> 1700000000 +0000\n\nmsg\n"
    );
    let mut expected = format!("commit {}\0", body.len()).into_bytes();
    expected.extend_from_slice(body.as_bytes());
    assert_eq!(payload, expected);
    let text = String::from_utf8(payload).unwrap();
    assert!(text.contains(&format!("tree {SHA_B}\n")));
    assert!(!text.contains("parent"));
    assert!(text.ends_with("msg\n"));
}

#[test]
fn commit_payload_with_parent() {
    let payload = create_commit_object(SHA_B, Some(SHA_A), "fix: things", &identity(), 42);
    let body = format!(
        "tree {SHA_B}\nparent {SHA_A}\nauthor Hugo <test@example.com> 42 +0000\ncommitter Hugo <test@example.com> 42 +0000\n\nfix: things\n"
    );
    let mut expected = format!("commit {}\0", body.len()).into_bytes();
    expected.extend_from_slice(body.as_bytes());
    assert_eq!(payload, expected);
}

#[test]
fn store_put_is_idempotent() {
    let mut store = MemoryStore::new();
    let payload = create_blob_object(b"hello");
    let h1 = store.put(&payload);
    let h2 = store.put(&payload);
    assert_eq!(h1, h2);
    assert_eq!(h1, calculate_object_hash(&payload));
}

#[test]
fn store_get_returns_what_was_put() {
    let mut store = MemoryStore::new();
    let payload = create_blob_object(b"some content");
    let h = store.put(&payload);
    let back = store.get(&h).unwrap();
    assert_eq!(back, payload);
}

#[test]
fn store_get_unknown_fingerprint_is_not_found() {
    let store = MemoryStore::new();
    assert_eq!(store.get(SHA_A), Err(GitError::NotFound));
}

#[test]
fn store_get_invalid_fingerprint_is_format_error() {
    let store = MemoryStore::new();
    assert_eq!(store.get("not a fingerprint"), Err(GitError::Format));
}

#[test]
fn store_keeps_distinct_objects_apart() {
    let mut store = MemoryStore::new();
    let p1 = create_blob_object(b"one");
    let p2 = create_blob_object(b"two");
    let h1 = store.put(&p1);
    let h2 = store.put(&p2);
    assert_ne!(h1, h2);
    assert_eq!(store.get(&h1).unwrap(), p1);
    assert_eq!(store.get(&h2).unwrap(), p2);
}

#[test]
fn permission_bits_decide_the_mode() {
    assert_eq!(
        FileMode::from_permission_bits(0o100755),
        FileMode::ExecutableFile
    );
    assert_eq!(
        FileMode::from_permission_bits(0o100644),
        FileMode::RegularFile
    );
    assert_eq!(FileMode::from_permission_bits(0o100100), FileMode::ExecutableFile);
    assert_eq!(FileMode::from_permission_bits(0o100010), FileMode::ExecutableFile);
    assert_eq!(FileMode::from_permission_bits(0o100001), FileMode::ExecutableFile);
    assert_eq!(FileMode::from_permission_bits(0), FileMode::RegularFile);
}
