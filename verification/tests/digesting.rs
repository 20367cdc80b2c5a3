use skillctl::config::HashAlgo;
use skillctl::digest::{
    digest_entries, normalize_rel_path, short_digest, to_hex, EntryKind, TreeEntry,
};
use skillctl::error::AppError;
use skillctl::globs::build_ignore_set;

fn file(parts: &[&str], data: &str) -> TreeEntry {
    TreeEntry {
        kind: EntryKind::File,
        parts: parts.iter().map(|p| p.to_string()).collect(),
        data: data.as_bytes().to_vec(),
    }
}

fn dir(parts: &[&str]) -> TreeEntry {
    TreeEntry {
        kind: EntryKind::Dir,
        parts: parts.iter().map(|p| p.to_string()).collect(),
        data: Vec::new(),
    }
}

#[test]
fn digest_stable_on_mtime() {
    let tree = vec![file(&["a.txt"], "hello")];
    let first = digest_entries(&tree, HashAlgo::Blake3, None).unwrap();
    let again = vec![file(&["a.txt"], "hello")];
    let second = digest_entries(&again, HashAlgo::Blake3, None).unwrap();
    assert_eq!(first, second);
}

#[test]
fn digest_changes_on_content() {
    let first =
        digest_entries(&vec![file(&["a.txt"], "hello")], HashAlgo::Sha256, None).unwrap();
    let second =
        digest_entries(&vec![file(&["a.txt"], "hello2")], HashAlgo::Sha256, None).unwrap();
    assert_ne!(first, second);
}

#[test]
fn digest_ignores_patterns() {
    let ignore = build_ignore_set(&vec!["**/*.tmp".to_string()]).unwrap().unwrap();
    let first = digest_entries(
        &vec![file(&["a.txt"], "hello"), file(&["skip.tmp"], "noise")],
        HashAlgo::Blake3,
        Some(&ignore),
    )
    .unwrap();
    let second = digest_entries(
        &vec![file(&["a.txt"], "hello"), file(&["skip.tmp"], "changed")],
        HashAlgo::Blake3,
        Some(&ignore),
    )
    .unwrap();
    assert_eq!(first, second);
}

#[test]
fn digest_sensitive_to_unignored_content() {
    let ignore = build_ignore_set(&vec!["**/*.tmp".to_string()]).unwrap().unwrap();
    let first = digest_entries(
        &vec![file(&["a.txt"], "hello")],
        HashAlgo::Blake3,
        Some(&ignore),
    )
    .unwrap();
    let second = digest_entries(
        &vec![file(&["a.txt"], "changed")],
        HashAlgo::Blake3,
        Some(&ignore),
    )
    .unwrap();
    assert_ne!(first, second);
}

#[test]
fn digest_distinguishes_nested_paths() {
    let first = digest_entries(
        &vec![dir(&["a"]), file(&["a", "b.txt"], "x")],
        HashAlgo::Blake3,
        None,
    )
    .unwrap();
    let second = digest_entries(&vec![file(&["ab.txt"], "x")], HashAlgo::Blake3, None).unwrap();
    assert_ne!(first, second);
}

#[test]
fn digest_independent_of_write_order() {
    let first = digest_entries(
        &vec![file(&["a.txt"], "one"), file(&["b.txt"], "two"), file(&["c.txt"], "three")],
        HashAlgo::Blake3,
        None,
    )
    .unwrap();
    let second = digest_entries(
        &vec![file(&["c.txt"], "three"), file(&["a.txt"], "one"), file(&["b.txt"], "two")],
        HashAlgo::Blake3,
        None,
    )
    .unwrap();
    assert_eq!(first, second);
}

#[test]
fn digest_is_fixed_width_hex() {
    let big = digest_entries(
        &vec![file(&["a.txt"], &"x".repeat(10000))],
        HashAlgo::Blake3,
        None,
    )
    .unwrap();
    let empty = digest_entries(&Vec::new(), HashAlgo::Blake3, None).unwrap();
    assert_eq!(big.len(), 64);
    assert_eq!(empty.len(), 64);
    let sha = digest_entries(&Vec::new(), HashAlgo::Sha256, None).unwrap();
    assert_eq!(sha.len(), 64);
    assert!(big.chars().all(|c| c.is_ascii_hexdigit() && !c.is_ascii_uppercase()));
}

#[test]
fn digest_empty_tree_is_stable() {
    let first = digest_entries(&Vec::new(), HashAlgo::Blake3, None).unwrap();
    let second = digest_entries(&vec![dir(&["sub"])], HashAlgo::Blake3, None).unwrap();
    assert_eq!(first, second);
}

#[test]
fn digest_rejects_symlink() {
    let bad = TreeEntry {
        kind: EntryKind::Symlink,
        parts: vec!["link.txt".to_string()],
        data: Vec::new(),
    };
    let err = digest_entries(&vec![bad], HashAlgo::Blake3, None).unwrap_err();
    assert!(matches!(err, AppError::Exec { .. }));
}

#[test]
fn digest_rejects_special_file() {
    let bad = TreeEntry {
        kind: EntryKind::Other,
        parts: vec!["socket.sock".to_string()],
        data: Vec::new(),
    };
    let err = digest_entries(&vec![bad], HashAlgo::Blake3, None).unwrap_err();
    assert!(matches!(err, AppError::Exec { .. }));
}

#[test]
fn algorithms_give_distinct_digests() {
    let tree = vec![file(&["a.txt"], "hello")];
    let b3 = digest_entries(&tree, HashAlgo::Blake3, None).unwrap();
    let sha = digest_entries(&tree, HashAlgo::Sha256, None).unwrap();
    assert_ne!(b3, sha);
}

#[test]
fn to_hex_renders_lowercase_pairs() {
    assert_eq!(to_hex(&vec![]), "");
    assert_eq!(to_hex(&vec![0x00, 0x0f, 0xa5, 0xff]), "000fa5ff");
}

#[test]
fn short_digest_keeps_short_values() {
    assert_eq!(short_digest("abcdef"), "abcdef");
    assert_eq!(short_digest(""), "");
}

#[test]
fn short_digest_elides_long_values() {
    assert_eq!(short_digest("abcdef0123"), "abc...123");
}

#[test]
fn normalize_joins_with_slashes() {
    assert_eq!(normalize_rel_path(&vec!["a".to_string(), "b.txt".to_string()]), "a/b.txt");
    assert_eq!(normalize_rel_path(&vec!["top.txt".to_string()]), "top.txt");
    assert_eq!(normalize_rel_path(&Vec::new()), "");
}
